//! Steiner trees and their segments: building, shifting, copying and undoing them.

use crate::lists::{all_of, count_of, is_least_of, is_most_of, lemma_all_next, lemma_all_none, lemma_count_next, lemma_count_none, lemma_sum_next, lemma_sum_none, sum_of};
use crate::lists::{};
use vstd::prelude::*;

use crate::estimate::{charged, high, l_h, l_v, least, low, most, segment_fits, EstimateGrid, LShape, Segment, ROOM};
use crate::grids::{at2, fits, lemma_at2, tdiv};
use crate::sorting::{is_order, order_by};
use crate::vecs::copy_vec;

verus! {

/// Larger than any cost that counts.
pub const BIG_INT: i32 = 1_000_000_000;

/// A node of a Steiner tree and the branch to its parent, `n`; the root is its own parent.
#[derive(Debug, Clone, Copy, PartialEq, Eq, Structural)]
pub struct Branch {
    pub x: i32,
    pub y: i32,
    pub n: usize,
}

/// A Steiner tree: the terminals first.
#[derive(Debug, Clone)]
pub struct RsmtTree {
    /// The number of terminals, not the number of branches.
    pub deg: usize,
    pub length: i64,
    pub branch: Vec<Branch>,
}

/// The pins of a net in the order of x and of y, and the place by x of each pin in the order of y.
#[derive(Debug, Clone)]
pub struct SortedPins {
    pub xs: Vec<i32>,
    pub ys: Vec<i32>,
    pub s: Vec<usize>,
}

/// A segment with the bend that its L took.
#[derive(Debug, Clone, Copy, PartialEq, Eq, Structural)]
pub struct RoutedSegment {
    pub seg: Segment,
    pub x_first: bool,
}

/// One layer of the capacities in space, row by row.
#[derive(Debug, Clone)]
pub struct CapLayer {
    pub h: Vec<i32>,
    pub v: Vec<i32>,
}

/// The capacities in space, which a net sums over its layers.
#[derive(Debug, Clone)]
pub struct Caps3D {
    pub x_grid: usize,
    pub layers: Vec<CapLayer>,
}

/// The capacity at a place of a layer.
pub open spec fn layer_cap(l: CapLayer, i: int, horizontal: bool) -> int {
    (if horizontal { l.h@[i] } else { l.v@[i] }) as int
}

/// The capacity at a place summed over the layers from `lo` up to `hi`.
pub open spec fn cap_sum(layers: Seq<CapLayer>, lo: int, hi: int, i: int, horizontal: bool) -> int
    decreases hi - lo,
{
    if hi <= lo { 0 } else { cap_sum(layers, lo, hi - 1, i, horizontal) + layer_cap(layers[hi - 1], i, horizontal) }
}

impl Caps3D {
    /// An edge's capacity over the layers `min_layer` to `max_layer`.
    pub open spec fn capacity(&self, min_layer: int, max_layer: int, x: int, y: int, horizontal: bool) -> int {
        cap_sum(self.layers@, min_layer, max_layer + 1, at2(x, y, self.x_grid as int), horizontal)
    }

    /// Whether the capacities cover a grid of some rows, up to a layer, and sum to machine integers.
    pub open spec fn covers(&self, max_layer: int, rows: int) -> bool {
        &&& max_layer < self.layers@.len()
        &&& forall|l: int| 0 <= l < self.layers@.len() ==> (#[trigger] self.layers@[l]).h@.len() == rows * self.x_grid && self.layers@[l].v@.len() == rows * self.x_grid
        &&& forall|lo: int, hi: int, i: int, horizontal: bool| 0 <= lo <= hi <= self.layers@.len() && 0 <= i < rows * self.x_grid ==> fits(#[trigger] cap_sum(self.layers@, lo, hi, i, horizontal))
    }

    /// An edge's capacity summed over the layers `min_layer` to `max_layer`, both included.
    pub fn edge_capacity(&self, min_layer: usize, max_layer: usize, x: i32, y: i32, horizontal: bool) -> (r: i32)
        requires
            max_layer < self.layers@.len(),
            x >= 0,
            y >= 0,
            forall|l: int| min_layer <= l <= max_layer ==> at2(x as int, y as int, self.x_grid as int) < (if horizontal { (#[trigger] self.layers@[l]).h@.len() } else { self.layers@[l].v@.len() }),
            forall|l: int| min_layer <= l <= max_layer + 1 ==> fits(#[trigger] cap_sum(self.layers@, min_layer as int, l, at2(x as int, y as int, self.x_grid as int), horizontal)),
        ensures
            r == self.capacity(min_layer as int, max_layer as int, x as int, y as int, horizontal),
    {
        if min_layer > max_layer {
            return 0;
        }
        let total: usize = if horizontal { self.layers[max_layer].h.len() } else { self.layers[max_layer].v.len() };
        proof {
            assert(0 <= y * self.x_grid) by (nonlinear_arith)
                requires
                    0 <= y,
            ;
            assert(at2(x as int, y as int, self.x_grid as int) < total);
        }
        let i: usize = y as usize * self.x_grid + x as usize;
        let mut sum: i32 = 0;
        let mut l: usize = min_layer;
        while l <= max_layer
            invariant
                i == at2(x as int, y as int, self.x_grid as int),
                forall|l: int| min_layer <= l <= max_layer ==> at2(x as int, y as int, self.x_grid as int) < (if horizontal { (#[trigger] self.layers@[l]).h@.len() } else { self.layers@[l].v@.len() }),
                forall|l: int| min_layer <= l <= max_layer + 1 ==> fits(#[trigger] cap_sum(self.layers@, min_layer as int, l, at2(x as int, y as int, self.x_grid as int), horizontal)),
                min_layer <= l <= max_layer + 1,
                max_layer < self.layers@.len(),
                sum == cap_sum(self.layers@, min_layer as int, l as int, i as int, horizontal),
            decreases max_layer + 1 - l,
        {
            let layers: usize = self.layers.len();
            let c: i32 = if horizontal { self.layers[l].h[i] } else { self.layers[l].v[i] };
            assert(fits(cap_sum(self.layers@, min_layer as int, l + 1, i as int, horizontal)));
            sum = sum + c;
            l += 1;
        }
        sum
    }
}

// ---- mapping back ----

/// Where halving finds `nx` among the values from `min` to `max`.
pub open spec fn found(nx: i32, nxs: Seq<i32>, min: int, max: int) -> Option<int>
    decreases max - min + 1,
{
    if min > max {
        None
    } else {
        let mid = (min + max) / 2;
        if nx == nxs[mid] {
            Some(mid)
        } else if nx < nxs[mid] {
            found(nx, nxs, min, mid - 1)
        } else {
            found(nx, nxs, mid + 1, max)
        }
    }
}

/// Halving finds a value of a list that never falls, wherever it is.
pub proof fn halving_finds_what_is_there(nx: i32, nxs: Seq<i32>, min: int, max: int, k: int)
    requires
        0 <= min,
        max < nxs.len(),
        forall|i: int, j: int| 0 <= i <= j < nxs.len() ==> #[trigger] nxs[i] <= #[trigger] nxs[j],
        min <= k <= max,
        nxs[k] == nx,
    ensures
        found(nx, nxs, min, max) matches Some(i) && min <= i <= max && nxs[i] == nx,
    decreases max - min + 1,
{
    let mid = (min + max) / 2;
    if nx == nxs[mid] {
    } else if nx < nxs[mid] {
        halving_finds_what_is_there(nx, nxs, min, mid - 1, k);
    } else {
        halving_finds_what_is_there(nx, nxs, mid + 1, max, k);
    }
}

/// The value of `xs` where halving finds `nx` among the first `d` values of `nxs`, or -1. Values may
/// repeat: the first that the halving lands on counts.
pub fn mapxy(nx: i32, xs: &[i32], nxs: &[i32], d: usize) -> (r: i32)
    requires
        d <= xs@.len(),
        d <= nxs@.len(),
        d <= i32::MAX,
    ensures
        r == (match found(nx, nxs@, 0, d - 1) {
            Some(i) => xs@[i],
            None => -1i32,
        }),
{
    let mut min: i64 = 0;
    let mut max: i64 = d as i64 - 1;
    while min <= max
        invariant
            0 <= min <= d,
            -1 <= max < d,
            d <= i32::MAX,
            d <= xs@.len(),
            d <= nxs@.len(),
            found(nx, nxs@, min as int, max as int) == found(nx, nxs@, 0, d - 1),
        decreases max - min + 1,
    {
        let mid: i64 = (min + max) / 2;
        let v: i32 = nxs[mid as usize];
        if nx == v {
            return xs[mid as usize];
        }
        if nx < v {
            max = mid - 1;
        } else {
            min = mid + 1;
        }
    }
    -1
}

// ---- small trees ----

pub open spec fn dist(a: int, b: int) -> int {
    if a < b { b - a } else { a - b }
}

/// The middle one of three.
pub open spec fn median(a: i32, b: i32, c: i32) -> i32 {
    if (a <= b && b <= c) || (c <= b && b <= a) {
        b
    } else if (b <= a && a <= c) || (c <= a && a <= b) {
        a
    } else {
        c
    }
}

/// The distance between the least and the most of three.
pub open spec fn spread(a: i32, b: i32, c: i32) -> int {
    most(most(a as int, b as int), c as int) - least(least(a as int, b as int), c as int)
}

fn middle(a: i32, b: i32, c: i32) -> (m: i32)
    ensures
        m == median(a, b, c),
{
    if (a <= b && b <= c) || (c <= b && b <= a) {
        b
    } else if (b <= a && a <= c) || (c <= a && a <= b) {
        a
    } else {
        c
    }
}

fn width(a: i32, b: i32, c: i32) -> (w: i64)
    ensures
        w == spread(a, b, c),
        0 <= w <= 0xffff_ffff,
{
    let hi: i32 = if a > b { if a > c { a } else { c } } else if b > c { b } else { c };
    let lo: i32 = if a < b { if a < c { a } else { c } } else if b < c { b } else { c };
    hi as i64 - lo as i64
}

fn gap(a: i32, b: i32) -> (w: i64)
    ensures
        w == dist(a as int, b as int),
        0 <= w <= 0xffff_ffff,
{
    if a < b { b as i64 - a as i64 } else { a as i64 - b as i64 }
}

/// The tree of two or three pins. That of three meets at the middle x and the middle y, and every
/// branch leads there.
pub fn small_tree(x: &[i32], y: &[i32]) -> (t: RsmtTree)
    requires
        x@.len() == y@.len(),
        x@.len() == 2 || x@.len() == 3,
    ensures
        t.deg == x@.len(),
        x@.len() == 2 ==> t.length == dist(x@[0] as int, x@[1] as int) + dist(y@[0] as int, y@[1] as int) && t.branch@ == seq![
            Branch { x: x@[0], y: y@[0], n: 1 },
            Branch { x: x@[1], y: y@[1], n: 1 },
        ],
        x@.len() == 3 ==> t.length == spread(x@[0], x@[1], x@[2]) + spread(y@[0], y@[1], y@[2]) && t.branch@ == seq![
            Branch { x: x@[0], y: y@[0], n: 3 },
            Branch { x: x@[1], y: y@[1], n: 3 },
            Branch { x: x@[2], y: y@[2], n: 3 },
            Branch { x: median(x@[0], x@[1], x@[2]), y: median(y@[0], y@[1], y@[2]), n: 3 },
        ],
{
    let mut branch: Vec<Branch> = Vec::new();
    if x.len() == 2 {
        branch.push(Branch { x: x[0], y: y[0], n: 1 });
        branch.push(Branch { x: x[1], y: y[1], n: 1 });
        assert(branch@ =~= seq![Branch { x: x@[0], y: y@[0], n: 1 }, Branch { x: x@[1], y: y@[1], n: 1 }]);
        return RsmtTree { deg: 2, length: gap(x[0], x[1]) + gap(y[0], y[1]), branch };
    }
    branch.push(Branch { x: x[0], y: y[0], n: 3 });
    branch.push(Branch { x: x[1], y: y[1], n: 3 });
    branch.push(Branch { x: x[2], y: y[2], n: 3 });
    branch.push(Branch { x: middle(x[0], x[1], x[2]), y: middle(y[0], y[1], y[2]), n: 3 });
    assert(branch@ =~= seq![
        Branch { x: x@[0], y: y@[0], n: 3 },
        Branch { x: x@[1], y: y@[1], n: 3 },
        Branch { x: x@[2], y: y@[2], n: 3 },
        Branch { x: median(x@[0], x@[1], x@[2]), y: median(y@[0], y@[1], y@[2]), n: 3 },
    ]);
    RsmtTree { deg: 3, length: width(x[0], x[1], x[2]) + width(y[0], y[1], y[2]), branch }
}

// ---- nets ----

/// What these stages read of a net.
#[derive(Debug, Clone)]
pub struct RsmtNet {
    pub pins_x: Vec<i32>,
    pub pins_y: Vec<i32>,
    pub edge_cost: i8,
    pub min_layer: usize,
    pub max_layer: usize,
}

/// The least of the first `n` values, `BIG_INT` at most.
pub open spec fn least_of(s: Seq<i32>, n: int) -> int
    decreases n,
{
    if n <= 0 { BIG_INT as int } else { least(least_of(s, n - 1), s[n - 1] as int) }
}

/// The greatest of the first `n` values, zero at least.
pub open spec fn most_of(s: Seq<i32>, n: int) -> int
    decreases n,
{
    if n <= 0 { 0 } else { most(most_of(s, n - 1), s[n - 1] as int) }
}

/// The pins' bounding box, `(xmin, xmax, ymin, ymax)`: the least values start at `BIG_INT`, the
/// greatest at zero.
pub fn pin_bbox(net: &RsmtNet) -> (r: (i32, i32, i32, i32))
    requires
        net.pins_x@.len() == net.pins_y@.len(),
    ensures
        r.0 == least_of(net.pins_x@, net.pins_x@.len() as int),
        r.1 == most_of(net.pins_x@, net.pins_x@.len() as int),
        r.2 == least_of(net.pins_y@, net.pins_y@.len() as int),
        r.3 == most_of(net.pins_y@, net.pins_y@.len() as int),
{
    let mut xmin: i32 = BIG_INT;
    let mut xmax: i32 = 0;
    let mut ymin: i32 = BIG_INT;
    let mut ymax: i32 = 0;
    let mut k: usize = 0;
    while k < net.pins_x.len()
        invariant
            k <= net.pins_x@.len() == net.pins_y@.len(),
            xmin == least_of(net.pins_x@, k as int),
            xmax == most_of(net.pins_x@, k as int),
            ymin == least_of(net.pins_y@, k as int),
            ymax == most_of(net.pins_y@, k as int),
        decreases net.pins_x@.len() - k,
    {
        let (x, y) = (net.pins_x[k], net.pins_y[k]);
        if x < xmin {
            xmin = x;
        }
        if x > xmax {
            xmax = x;
        }
        if y < ymin {
            ymin = y;
        }
        if y > ymax {
            ymax = y;
        }
        k += 1;
    }
    (xmin, xmax, ymin, ymax)
}

/// Whether a net is more than five times wider than tall.
pub fn htree_suite(net: &RsmtNet) -> (r: bool)
    requires
        net.pins_x@.len() == net.pins_y@.len(),
    ensures
        r == (5 * (most_of(net.pins_y@, net.pins_y@.len() as int) - least_of(net.pins_y@, net.pins_y@.len() as int)) < most_of(net.pins_x@, net.pins_x@.len() as int) - least_of(
            net.pins_x@,
            net.pins_x@.len() as int,
        )),
{
    let (xmin, xmax, ymin, ymax) = pin_bbox(net);
    5 * (ymax as i64 - ymin as i64) < xmax as i64 - xmin as i64
}

/// Whether an edge is at or over the net's capacity.
pub open spec fn full_h(est: EstimateGrid, caps: Caps3D, net: RsmtNet, x: int, y: int) -> bool {
    est.eh(x, y) >= 2 * caps.capacity(net.min_layer as int, net.max_layer as int, x, y, true)
}

/// Whether a vertical edge is at or over the net's capacity.
pub open spec fn full_v(est: EstimateGrid, caps: Caps3D, net: RsmtNet, x: int, y: int) -> bool {
    est.ev(x, y) >= 2 * caps.capacity(net.min_layer as int, net.max_layer as int, x, y, false)
}

/// Whether an edge of a segment's L is at or over the net's capacity.
pub open spec fn full_segment(est: EstimateGrid, caps: Caps3D, net: RsmtNet, s: RoutedSegment) -> bool {
    let row = (if s.x_first { s.seg.y1 } else { s.seg.y2 }) as int;
    let column = (if s.x_first { s.seg.x2 } else { s.seg.x1 }) as int;
    row_full(est, caps, net, s.seg.x1 as int, s.seg.x2 as int, row) || column_full(est, caps, net, column, low(s.seg), high(s.seg))
}

/// Whether an edge of a row, from column `x1` up to `x2`, is at or over the net's capacity.
pub open spec fn row_full(est: EstimateGrid, caps: Caps3D, net: RsmtNet, x1: int, x2: int, y: int) -> bool {
    exists|x: int| x1 <= x < x2 && #[trigger] full_h(est, caps, net, x, y)
}

/// Whether an edge of a column, from row `y1` up to `y2`, is at or over the net's capacity.
pub open spec fn column_full(est: EstimateGrid, caps: Caps3D, net: RsmtNet, x: int, y1: int, y2: int) -> bool {
    exists|y: int| y1 <= y < y2 && #[trigger] full_v(est, caps, net, x, y)
}

fn is_full_row(est: &EstimateGrid, caps: &Caps3D, net: &RsmtNet, x1: i32, x2: i32, y: i32) -> (r: bool)
    requires
        est.wf(),
        caps.x_grid == est.x_grids,
        caps.covers(net.max_layer as int, est.rows()),
        0 <= x1 <= x2 < est.columns(),
        0 <= y < est.rows(),
    ensures
        r == row_full(*est, *caps, *net, x1 as int, x2 as int, y as int),
{
    let mut x: i32 = x1;
    while x < x2
        invariant
            est.wf(),
            caps.x_grid == est.x_grids,
            caps.covers(net.max_layer as int, est.rows()),
            0 <= x1 <= x <= x2 < est.columns(),
            0 <= y < est.rows(),
            forall|i: int| x1 <= i < x ==> !#[trigger] full_h(*est, *caps, *net, i, y as int),
        decreases x2 - x,
    {
        proof {
            lemma_at2(x as int, y as int, est.columns(), est.rows());
        }
        let cap: i32 = caps.edge_capacity(net.min_layer, net.max_layer, x, y, true);
        if est.h(x as usize, y as usize) >= 2 * (cap as i64) {
            assert(full_h(*est, *caps, *net, x as int, y as int));
            return true;
        }
        x += 1;
    }
    false
}

fn is_full_column(est: &EstimateGrid, caps: &Caps3D, net: &RsmtNet, x: i32, y1: i32, y2: i32) -> (r: bool)
    requires
        est.wf(),
        caps.x_grid == est.x_grids,
        caps.covers(net.max_layer as int, est.rows()),
        0 <= x < est.columns(),
        0 <= y1 <= y2 < est.rows(),
    ensures
        r == column_full(*est, *caps, *net, x as int, y1 as int, y2 as int),
{
    let mut y: i32 = y1;
    while y < y2
        invariant
            est.wf(),
            caps.x_grid == est.x_grids,
            caps.covers(net.max_layer as int, est.rows()),
            0 <= x < est.columns(),
            0 <= y1 <= y <= y2 < est.rows(),
            forall|i: int| y1 <= i < y ==> !#[trigger] full_v(*est, *caps, *net, x as int, i),
        decreases y2 - y,
    {
        proof {
            lemma_at2(x as int, y as int, est.columns(), est.rows());
        }
        let cap: i32 = caps.edge_capacity(net.min_layer, net.max_layer, x, y, false);
        if est.v(x as usize, y as usize) >= 2 * (cap as i64) {
            assert(full_v(*est, *caps, *net, x as int, y as int));
            return true;
        }
        y += 1;
    }
    false
}

/// Whether any edge under the net's segments, each walked the way it bent, is at or over the net's
/// capacity.
pub fn net_congestion(net: &RsmtNet, seglist: &[RoutedSegment], est: &EstimateGrid, caps: &Caps3D) -> (r: bool)
    requires
        est.wf(),
        caps.x_grid == est.x_grids,
        caps.covers(net.max_layer as int, est.rows()),
        forall|k: int| 0 <= k < seglist@.len() ==> segment_fits(*est, (#[trigger] seglist@[k]).seg),
    ensures
        r == exists|k: int| 0 <= k < seglist@.len() && full_segment(*est, *caps, *net, #[trigger] seglist@[k]),
{
    let mut k: usize = 0;
    while k < seglist.len()
        invariant
            k <= seglist@.len(),
            est.wf(),
            caps.x_grid == est.x_grids,
            caps.covers(net.max_layer as int, est.rows()),
            forall|k: int| 0 <= k < seglist@.len() ==> segment_fits(*est, (#[trigger] seglist@[k]).seg),
            forall|j: int| 0 <= j < k ==> !full_segment(*est, *caps, *net, #[trigger] seglist@[j]),
        decreases seglist@.len() - k,
    {
        let rs = seglist[k];
        let s = rs.seg;
        assert(segment_fits(*est, seglist@[k as int].seg));
        let (ymin, ymax) = if s.y1 < s.y2 { (s.y1, s.y2) } else { (s.y2, s.y1) };
        let full = if rs.x_first {
            is_full_row(est, caps, net, s.x1, s.x2, s.y1) || is_full_column(est, caps, net, s.x2, ymin, ymax)
        } else {
            is_full_column(est, caps, net, s.x1, ymin, ymax) || is_full_row(est, caps, net, s.x1, s.x2, s.y2)
        };
        if full {
            assert(full_segment(*est, *caps, *net, seglist@[k as int]));
            return true;
        }
        k += 1;
    }
    false
}

/// What undoing an L takes off a horizontal edge, in halves.
pub open spec fn bend_of(s: RoutedSegment) -> LShape {
    if s.x_first { LShape::XFirst } else { LShape::YFirst }
}

/// Takes a segment's L off the grid, the way it bent.
pub fn ripup_seg_l(est: &mut EstimateGrid, s: &RoutedSegment)
    requires
        old(est).wf(),
        segment_fits(*old(est), s.seg),
        old(est).within(ROOM as int),
    ensures
        charged(*old(est), *final(est), |x: int, y: int| -l_h(s.seg, bend_of(*s), x, y), |x: int, y: int| -l_v(s.seg, bend_of(*s), x, y)),
        final(est).within(ROOM + 1024),
{
    let g = s.seg;
    let cost: i64 = -2 * (g.edge_cost as i64);
    let (ymin, ymax) = if g.y1 < g.y2 { (g.y1, g.y2) } else { (g.y2, g.y1) };
    proof {
        assert(cost * 1 == cost && cost * 0 == 0) by (nonlinear_arith);
        assert((2 * g.edge_cost) * 1 == 2 * g.edge_cost && (2 * g.edge_cost) * 0 == 0) by (nonlinear_arith);
    }
    if s.x_first {
        est.update_h(g.x1, g.x2, g.y1, cost);
        est.update_v(g.x2, ymin, ymax, cost);
    } else {
        est.update_v(g.x1, ymin, ymax, cost);
        est.update_h(g.x1, g.x2, g.y2, cost);
    }
}

/// What the L's of the first `n` segments charge a horizontal edge.
pub open spec fn routed_h(segs: Seq<RoutedSegment>, n: int, x: int, y: int) -> int
    decreases n,
{
    if n <= 0 { 0 } else { routed_h(segs, n - 1, x, y) + l_h(segs[n - 1].seg, bend_of(segs[n - 1]), x, y) }
}

/// What the L's of the first `n` segments charge a vertical edge.
pub open spec fn routed_v(segs: Seq<RoutedSegment>, n: int, x: int, y: int) -> int
    decreases n,
{
    if n <= 0 { 0 } else { routed_v(segs, n - 1, x, y) + l_v(segs[n - 1].seg, bend_of(segs[n - 1]), x, y) }
}

/// Takes every segment of a net's list off the grid.
pub fn ripup_net_segments(seglist: &[RoutedSegment], est: &mut EstimateGrid)
    requires
        old(est).wf(),
        forall|k: int| 0 <= k < seglist@.len() ==> segment_fits(*old(est), (#[trigger] seglist@[k]).seg),
        old(est).within(ROOM - 1024 * seglist@.len()),
    ensures
        charged(
            *old(est),
            *final(est),
            |x: int, y: int| -routed_h(seglist@, seglist@.len() as int, x, y),
            |x: int, y: int| -routed_v(seglist@, seglist@.len() as int, x, y),
        ),
{
    let ghost g0 = *est;
    let mut k: usize = 0;
    while k < seglist.len()
        invariant
            k <= seglist@.len(),
            g0.wf(),
            forall|k: int| 0 <= k < seglist@.len() ==> segment_fits(g0, (#[trigger] seglist@[k]).seg),
            charged(g0, *est, |x: int, y: int| -routed_h(seglist@, k as int, x, y), |x: int, y: int| -routed_v(seglist@, k as int, x, y)),
            est.within(ROOM - 1024 * (seglist@.len() - k)),
        decreases seglist@.len() - k,
    {
        let ghost g1 = *est;
        assert(segment_fits(g0, seglist@[k as int].seg));
        let s = seglist[k];
        ripup_seg_l(est, &s);
        proof {
            let c = s.seg.edge_cost;
            assert((2 * c) * 1 == 2 * c && (2 * c) * 0 == 0) by (nonlinear_arith);
            assert forall|x: int, y: int| g0.has_h(x, y) implies #[trigger] est.eh(x, y) == g0.eh(x, y) - routed_h(seglist@, k + 1, x, y) by {
                assert(est.eh(x, y) == g1.eh(x, y) - l_h(s.seg, bend_of(s), x, y));
                assert(g1.eh(x, y) == g0.eh(x, y) - routed_h(seglist@, k as int, x, y));
            }
            assert forall|x: int, y: int| g0.has_v(x, y) implies #[trigger] est.ev(x, y) == g0.ev(x, y) - routed_v(seglist@, k + 1, x, y) by {
                assert(est.ev(x, y) == g1.ev(x, y) - l_v(s.seg, bend_of(s), x, y));
                assert(g1.ev(x, y) == g0.ev(x, y) - routed_v(seglist@, k as int, x, y));
            }
            assert forall|x: int, y: int| est.has_h(x, y) implies -(ROOM - 1024 * (seglist@.len() - (k + 1))) <= #[trigger] est.eh(x, y) <= ROOM - 1024 * (seglist@.len() - (k + 1)) by {
                assert(est.eh(x, y) == g1.eh(x, y) - l_h(s.seg, bend_of(s), x, y));
            }
            assert forall|x: int, y: int| est.has_v(x, y) implies -(ROOM - 1024 * (seglist@.len() - (k + 1))) <= #[trigger] est.ev(x, y) <= ROOM - 1024 * (seglist@.len() - (k + 1)) by {
                assert(est.ev(x, y) == g1.ev(x, y) - l_v(s.seg, bend_of(s), x, y));
            }
        }
        k += 1;
    }
}

// ---- the pins in order ----

/// The first of the least keys from place `i` up to `j`.
pub open spec fn min_place(key: Seq<i32>, p: Seq<usize>, i: int, j: int) -> int
    decreases j - i,
{
    if j <= i + 1 {
        i
    } else {
        let m = min_place(key, p, i, j - 1);
        if key[p[m] as int] > key[p[j - 1] as int] { j - 1 } else { m }
    }
}

/// The pins after `n` rounds that each swap the least key of the rest into its place.
pub open spec fn x_rounds(x: Seq<i32>, n: int) -> Seq<usize>
    decreases n,
{
    if n <= 0 {
        Seq::new(x.len(), |i: int| i as usize)
    } else {
        let p = x_rounds(x, n - 1);
        let m = min_place(x, p, n - 1, x.len() as int);
        p.update(n - 1, p[m]).update(m, p[n - 1])
    }
}

/// The pins after `n` rounds that each take the least key of the rest, and put the pin at the front
/// of the rest in its place.
pub open spec fn y_rounds(y: Seq<i32>, p: Seq<usize>, n: int) -> Seq<usize>
    decreases n,
{
    if n <= 0 {
        p
    } else {
        let r = y_rounds(y, p, n - 1);
        r.update(min_place(y, r, n - 1, y.len() as int), r[n - 1])
    }
}

/// The pin that round `i` takes by y.
pub open spec fn y_pick(y: Seq<i32>, p: Seq<usize>, i: int) -> usize {
    let r = y_rounds(y, p, i);
    r[min_place(y, r, i, y.len() as int)]
}

/// The number of pins from which on the pins are sorted in a stable way.
pub const STABLE_FROM: usize = 1000;

pub open spec fn as_keys(s: Seq<i32>) -> Seq<i64> {
    s.map_values(|v: i32| v as i64)
}

/// Whether a list is the pins in the order of x.
pub open spec fn is_x_order(x: Seq<i32>, p: Seq<usize>) -> bool {
    if x.len() < STABLE_FROM { p == x_rounds(x, x.len() - 1) } else { is_order(as_keys(x), p) }
}

/// Whether a list is the pins in the order of y, where `p` is that of x.
pub open spec fn is_y_order(y: Seq<i32>, p: Seq<usize>, q: Seq<usize>) -> bool {
    &&& q.len() == y.len()
    &&& if y.len() < STABLE_FROM {
        forall|i: int| 0 <= i < q.len() ==> #[trigger] q[i] == y_pick(y, p, i)
    } else {
        exists|r: Seq<usize>| #[trigger] is_order(as_keys(y_through(y, p)), r) && q == r.map_values(|k: usize| p[k as int])
    }
}

/// The y of the pins in the order of `p`.
pub open spec fn y_through(y: Seq<i32>, p: Seq<usize>) -> Seq<i32> {
    p.map_values(|k: usize| y[k as int])
}

/// Whether sorted pins are those of a net, where `p` and `q` are the orders of x and of y.
pub open spec fn sorted_from(x: Seq<i32>, y: Seq<i32>, p: Seq<usize>, q: Seq<usize>, r: SortedPins) -> bool {
    &&& is_x_order(x, p)
    &&& is_y_order(y, p, q)
    &&& r.xs@.len() == x.len()
    &&& r.ys@.len() == x.len()
    &&& r.s@.len() == x.len()
    &&& forall|i: int| 0 <= i < x.len() ==> #[trigger] r.xs@[i] == x[p[i] as int]
    &&& forall|i: int| 0 <= i < x.len() ==> #[trigger] r.ys@[i] == y[q[i] as int]
    &&& forall|i: int| 0 <= i < x.len() ==> (#[trigger] r.s@[i]) < x.len() && p[r.s@[i] as int] == q[i]
}

/// Whether sorted pins are those of a net.
pub open spec fn are_sorted_pins(x: Seq<i32>, y: Seq<i32>, r: SortedPins) -> bool {
    exists|p: Seq<usize>, q: Seq<usize>| sorted_from(x, y, p, q, r)
}

/// Whether a list of pins is in range and repeats none.
spec fn is_listing(p: Seq<usize>, n: int) -> bool {
    &&& p.len() == n
    &&& forall|i: int| 0 <= i < n ==> (#[trigger] p[i]) < n
    &&& forall|i: int, j: int| 0 <= i < j < n ==> #[trigger] p[i] != #[trigger] p[j]
}

fn min_index(key: &[i32], p: &Vec<usize>, i: usize) -> (m: usize)
    requires
        i < p@.len(),
        forall|k: int| 0 <= k < p@.len() ==> (#[trigger] p@[k]) < key@.len(),
    ensures
        m == min_place(key@, p@, i as int, p@.len() as int),
        i <= m < p@.len(),
        forall|k: int| i <= k < p@.len() ==> key@[p@[m as int] as int] <= key@[(#[trigger] p@[k]) as int],
{
    let mut m: usize = i;
    let total: usize = p.len();
    let mut j: usize = i + 1;
    while j < p.len()
        invariant
            i < j <= p@.len(),
            i <= m < j,
            forall|k: int| 0 <= k < p@.len() ==> (#[trigger] p@[k]) < key@.len(),
            m == min_place(key@, p@, i as int, j as int),
            forall|k: int| i <= k < j ==> key@[p@[m as int] as int] <= key@[(#[trigger] p@[k]) as int],
        decreases p@.len() - j,
    {
        if key[p[m]] > key[p[j]] {
            m = j;
        }
        j += 1;
    }
    m
}

/// The pins in the order of x.
fn x_order(x: &[i32]) -> (p: Vec<usize>)
    requires
        x@.len() > 0,
    ensures
        is_x_order(x@, p@),
        is_listing(p@, x@.len() as int),
        forall|i: int, j: int| 0 <= i < j < p@.len() ==> x@[(#[trigger] p@[i]) as int] <= x@[(#[trigger] p@[j]) as int],
{
    let d: usize = x.len();
    let mut p: Vec<usize> = Vec::new();
    if d < STABLE_FROM {
        let mut k: usize = 0;
        while k < d
            invariant
                k <= d == x@.len(),
                p@.len() == k,
                forall|i: int| 0 <= i < k ==> #[trigger] p@[i] == i,
            decreases d - k,
        {
            p.push(k);
            k += 1;
        }
        assert(p@ =~= x_rounds(x@, 0));
        let mut i: usize = 0;
        while i < d - 1
            invariant
                0 < d == x@.len(),
                i <= d - 1,
                is_listing(p@, d as int),
                p@ == x_rounds(x@, i as int),
                forall|a: int, b: int| 0 <= a < i && a < b < d ==> x@[(#[trigger] p@[a]) as int] <= x@[(#[trigger] p@[b]) as int],
            decreases d - 1 - i,
        {
            let m: usize = min_index(x, &p, i);
            let ghost p0 = p@;
            let (at, least_one) = (p[i], p[m]);
            p[i] = least_one;
            p[m] = at;
            assert(p@ =~= x_rounds(x@, i + 1));
            proof {
                assert forall|a: int, b: int| 0 <= a < b < d implies #[trigger] p@[a] != #[trigger] p@[b] by {
                    let a2 = if a == i { m as int } else if a == m { i as int } else { a };
                    let b2 = if b == i { m as int } else if b == m { i as int } else { b };
                    assert(p@[a] == p0[a2] && p@[b] == p0[b2]);
                    if a2 < b2 {
                        assert(p0[a2] != p0[b2]);
                    } else {
                        assert(p0[b2] != p0[a2]);
                    }
                }
                assert forall|a: int, b: int| 0 <= a < i + 1 && a < b < d implies x@[(#[trigger] p@[a]) as int] <= x@[(#[trigger] p@[b]) as int] by {
                    let b2 = if b == i { m as int } else if b == m { i as int } else { b };
                    assert(p@[b] == p0[b2]);
                    if a < i {
                        assert(p@[a] == p0[a]);
                        assert(x@[p0[a] as int] <= x@[p0[b2] as int]);
                    } else {
                        assert(x@[p0[m as int] as int] <= x@[p0[b2] as int]);
                    }
                }
            }
            i += 1;
        }
    } else {
        let mut keys: Vec<i64> = Vec::new();
        let mut k: usize = 0;
        while k < d
            invariant
                k <= d == x@.len(),
                keys@ == as_keys(x@.take(k as int)),
            decreases d - k,
        {
            keys.push(x[k] as i64);
            k += 1;
            assert(keys@ =~= as_keys(x@.take(k as int)));
        }
        assert(x@.take(k as int) =~= x@);
        p = order_by(&keys);
        proof {
            assert forall|i: int, j: int| 0 <= i < j < p@.len() implies #[trigger] p@[i] != #[trigger] p@[j] && x@[p@[i] as int] <= x@[p@[j] as int] by {
                assert(crate::sorting::comes_before(keys@, p@[i], p@[j]));
            }
        }
    }
    p
}

/// The pins in the order of y.
fn y_order(y: &[i32], p: &Vec<usize>) -> (q: Vec<usize>)
    requires
        y@.len() > 0,
        is_listing(p@, y@.len() as int),
    ensures
        is_y_order(y@, p@, q@),
        forall|i: int| 0 <= i < q@.len() ==> (#[trigger] q@[i]) < y@.len(),
        forall|i: int, j: int| 0 <= i < j < q@.len() ==> y@[(#[trigger] q@[i]) as int] <= y@[(#[trigger] q@[j]) as int],
{
    let d: usize = y.len();
    let mut q: Vec<usize> = Vec::new();
    if d < STABLE_FROM {
        let mut r = copy_vec(p);
        let mut i: usize = 0;
        while i < d
            invariant
                0 < d == y@.len(),
                i <= d,
                is_listing(p@, d as int),
                r@.len() == d,
                forall|k: int| 0 <= k < d ==> (#[trigger] r@[k]) < d,
                r@ == y_rounds(y@, p@, i as int),
                q@.len() == i,
                forall|k: int| 0 <= k < i ==> #[trigger] q@[k] == y_pick(y@, p@, k) && q@[k] < d,
                forall|a: int, b: int| 0 <= a < b < i ==> y@[(#[trigger] q@[a]) as int] <= y@[(#[trigger] q@[b]) as int],
                forall|a: int, b: int| 0 <= a < i <= b < d ==> y@[(#[trigger] q@[a]) as int] <= y@[(#[trigger] r@[b]) as int],
            decreases d - i,
        {
            let m: usize = min_index(y, &r, i);
            let ghost r0 = r@;
            let (at, pick) = (r[i], r[m]);
            q.push(pick);
            r[m] = at;
            proof {
                assert forall|a: int, b: int| 0 <= a < i + 1 && i + 1 <= b < d implies y@[(#[trigger] q@[a]) as int] <= y@[(#[trigger] r@[b]) as int] by {
                    let b2 = if b == m { i as int } else { b };
                    assert(r@[b] == r0[b2]);
                    if a < i {
                        assert(y@[q@[a] as int] <= y@[r0[b2] as int]);
                    } else {
                        assert(y@[r0[m as int] as int] <= y@[r0[b2] as int]);
                    }
                }
                assert forall|a: int, b: int| 0 <= a < b < i + 1 implies y@[(#[trigger] q@[a]) as int] <= y@[(#[trigger] q@[b]) as int] by {
                    if b == i {
                        assert(y@[q@[a] as int] <= y@[r0[m as int] as int]);
                    }
                }
            }
            i += 1;
        }
    } else {
        let mut keys: Vec<i64> = Vec::new();
        let mut k: usize = 0;
        while k < d
            invariant
                k <= d == y@.len(),
                is_listing(p@, d as int),
                keys@.len() == k,
                forall|j: int| 0 <= j < k ==> #[trigger] keys@[j] == y@[p@[j] as int],
            decreases d - k,
        {
            keys.push(y[p[k]] as i64);
            k += 1;
        }
        assert(keys@ =~= as_keys(y_through(y@, p@)));
        let r = order_by(&keys);
        k = 0;
        while k < d
            invariant
                k <= d == y@.len(),
                is_listing(p@, d as int),
                keys@.len() == d,
                forall|j: int| 0 <= j < d ==> #[trigger] keys@[j] == y@[p@[j] as int],
                is_order(keys@, r@),
                q@.len() == k,
                forall|j: int| 0 <= j < k ==> #[trigger] q@[j] == p@[r@[j] as int] && q@[j] < d,
                forall|a: int, b: int| 0 <= a < b < k ==> y@[(#[trigger] q@[a]) as int] <= y@[(#[trigger] q@[b]) as int],
            decreases d - k,
        {
            let at: usize = r[k];
            q.push(p[at]);
            proof {
                assert forall|a: int, b: int| 0 <= a < b < k + 1 implies y@[(#[trigger] q@[a]) as int] <= y@[(#[trigger] q@[b]) as int] by {
                    assert(crate::sorting::comes_before(keys@, r@[a], r@[b]));
                    assert(keys@[r@[a] as int] == y@[p@[r@[a] as int] as int]);
                    assert(keys@[r@[b] as int] == y@[p@[r@[b] as int] as int]);
                }
            }
            k += 1;
        }
        assert(q@ =~= r@.map_values(|k: usize| p@[k as int]));
    }
    q
}

/// The pins of a net in the order of x and of y.
///
/// The two orders differ on ties below the limit from which on they are stable: that of x swaps the
/// least of the rest into its place, and that of y overwrites the place of the least with the front
/// of the rest.
pub fn sort_pins(x: &[i32], y: &[i32]) -> (r: SortedPins)
    requires
        x@.len() == y@.len(),
        x@.len() > 0,
    ensures
        are_sorted_pins(x@, y@, r),
        forall|i: int, j: int| 0 <= i < j < x@.len() ==> #[trigger] r.xs@[i] <= #[trigger] r.xs@[j],
        forall|i: int, j: int| 0 <= i < j < x@.len() ==> #[trigger] r.ys@[i] <= #[trigger] r.ys@[j],
{
    let d: usize = x.len();
    let p = x_order(x);
    let q = y_order(y, &p);
    let mut rank: Vec<usize> = crate::vecs::filled(0usize, d);
    let mut k: usize = 0;
    while k < d
        invariant
            k <= d,
            is_listing(p@, d as int),
            rank@.len() == d,
            forall|j: int| 0 <= j < k ==> rank@[(#[trigger] p@[j]) as int] == j,
        decreases d - k,
    {
        let at: usize = p[k];
        rank[at] = k;
        k += 1;
    }
    proof {
        assert forall|v: int| 0 <= v < d implies (#[trigger] rank@[v]) < d && p@[rank@[v] as int] == v by {
            lemma_listing_full(p@, d as int, v);
            let j = choose|j: int| 0 <= j < d && p@[j] == v;
            assert(rank@[p@[j] as int] == j);
        }
    }
    let mut xs: Vec<i32> = Vec::new();
    let mut ys: Vec<i32> = Vec::new();
    let mut s: Vec<usize> = Vec::new();
    k = 0;
    while k < d
        invariant
            k <= d == x@.len() == y@.len(),
            is_listing(p@, d as int),
            q@.len() == d,
            forall|i: int| 0 <= i < d ==> (#[trigger] q@[i]) < d,
            rank@.len() == d,
            forall|v: int| 0 <= v < d ==> (#[trigger] rank@[v]) < d && p@[rank@[v] as int] == v,
            xs@.len() == k,
            ys@.len() == k,
            s@.len() == k,
            forall|i: int| 0 <= i < k ==> #[trigger] xs@[i] == x@[p@[i] as int],
            forall|i: int| 0 <= i < k ==> #[trigger] ys@[i] == y@[q@[i] as int],
            forall|i: int| 0 <= i < k ==> (#[trigger] s@[i]) < d && p@[s@[i] as int] == q@[i],
        decreases d - k,
    {
        xs.push(x[p[k]]);
        ys.push(y[q[k]]);
        assert(rank@[q@[k as int] as int] < d);
        s.push(rank[q[k]]);
        k += 1;
    }
    let r = SortedPins { xs, ys, s };
    proof {
        assert(sorted_from(x@, y@, p@, q@, r));
        assert forall|i: int, j: int| 0 <= i < j < d implies #[trigger] r.xs@[i] <= #[trigger] r.xs@[j] by {
            assert(x@[p@[i] as int] <= x@[p@[j] as int]);
        }
        assert forall|i: int, j: int| 0 <= i < j < d implies #[trigger] r.ys@[i] <= #[trigger] r.ys@[j] by {
            assert(y@[q@[i] as int] <= y@[q@[j] as int]);
        }
    }
    r
}

proof fn lemma_listing_full(p: Seq<usize>, n: int, v: int)
    requires
        is_listing(p, n),
        0 <= v < n,
    ensures
        exists|j: int| 0 <= j < n && p[j] == v,
{
    let q = p.map_values(|u: usize| u as int);
    assert(q.no_duplicates()) by {
        assert forall|i: int, j: int| 0 <= i < q.len() && 0 <= j < q.len() && i != j implies q[i] != q[j] by {
            if i < j {
                assert(p[i] != p[j]);
            } else {
                assert(p[j] != p[i]);
            }
        }
    }
    let t = q.to_set();
    q.unique_seq_to_set();
    let r = vstd::set_lib::set_int_range(0, n);
    vstd::set_lib::lemma_int_range(0, n);
    assert(t.subset_of(r)) by {
        assert forall|x: int| t.contains(x) implies r.contains(x) by {
            let i = choose|i: int| 0 <= i < q.len() && q[i] == x;
            assert(p[i] < n);
        }
    }
    vstd::set_lib::lemma_subset_equality(t, r);
    assert(t.contains(v));
    let i = choose|i: int| 0 <= i < q.len() && q[i] == v;
    assert(p[i] == v);
}

/// Each value times a factor.
pub fn scaled(v: &[i32], factor: i32) -> (r: Vec<i32>)
    requires
        forall|i: int| 0 <= i < v@.len() ==> fits(#[trigger] v@[i] * factor),
    ensures
        r@.len() == v@.len(),
        forall|i: int| 0 <= i < v@.len() ==> #[trigger] r@[i] == v@[i] * factor,
{
    let mut r: Vec<i32> = Vec::new();
    let mut k: usize = 0;
    while k < v.len()
        invariant
            k <= v@.len(),
            forall|i: int| 0 <= i < v@.len() ==> fits(#[trigger] v@[i] * factor),
            r@.len() == k,
            forall|i: int| 0 <= i < k ==> #[trigger] r@[i] == v@[i] * factor,
        decreases v@.len() - k,
    {
        assert(fits(v@[k as int] * factor));
        r.push(v[k] * factor);
        k += 1;
    }
    r
}

/// Takes the scale of a tree's branches back: 100 for x and `y_scale` for y, by a division that drops
/// the remainder. The length keeps its scale.
pub fn scale_back(t: &mut RsmtTree, y_scale: i32)
    requires
        y_scale > 0,
    ensures
        final(t).deg == old(t).deg,
        final(t).length == old(t).length,
        final(t).branch@ == old(t).branch@.map_values(
            |b: Branch| Branch { x: tdiv(b.x as int, 100) as i32, y: tdiv(b.y as int, y_scale as int) as i32, n: b.n },
        ),
{
    let ghost b0 = t.branch@;
    let mut k: usize = 0;
    while k < t.branch.len()
        invariant
            y_scale > 0,
            k <= t.branch@.len() == b0.len(),
            forall|i: int| k <= i < b0.len() ==> #[trigger] t.branch@[i] == b0[i],
            forall|i: int| 0 <= i < k ==> #[trigger] t.branch@[i] == (Branch { x: tdiv(b0[i].x as int, 100) as i32, y: tdiv(b0[i].y as int, y_scale as int) as i32, n: b0[i].n }),
            t.deg == old(t).deg,
            t.length == old(t).length,
        decreases b0.len() - k,
    {
        let b = t.branch[k];
        t.branch[k] = Branch { x: b.x / 100, y: b.y / y_scale, n: b.n };
        k += 1;
    }
    assert(t.branch@ =~= b0.map_values(
        |b: Branch| Branch { x: tdiv(b.x as int, 100) as i32, y: tdiv(b.y as int, y_scale as int) as i32, n: b.n },
    ));
}

/// The sum of the first `n` gaps after a start.
pub open spec fn placed(start: int, gaps: Seq<i32>, n: int) -> int
    decreases n,
{
    if n <= 0 { start } else { placed(start, gaps, n - 1) + gaps[n - 1] }
}

/// The coordinates that a start and the gaps after it give.
pub fn place_gaps(start: i32, gaps: &[i32]) -> (r: Vec<i32>)
    requires
        forall|k: int| 0 <= k <= gaps@.len() ==> fits(#[trigger] placed(start as int, gaps@, k)),
    ensures
        r@.len() == gaps@.len() + 1,
        forall|k: int| 0 <= k < r@.len() ==> #[trigger] r@[k] == placed(start as int, gaps@, k),
{
    let mut r: Vec<i32> = Vec::new();
    r.push(start);
    let mut k: usize = 0;
    while k < gaps.len()
        invariant
            k <= gaps@.len(),
            forall|k: int| 0 <= k <= gaps@.len() ==> fits(#[trigger] placed(start as int, gaps@, k)),
            r@.len() == k + 1,
            forall|j: int| 0 <= j <= k ==> #[trigger] r@[j] == placed(start as int, gaps@, j),
        decreases gaps@.len() - k,
    {
        assert(fits(placed(start as int, gaps@, k + 1)));
        assert(r@[k as int] == placed(start as int, gaps@, k as int));
        let next: i32 = r[k] + gaps[k];
        r.push(next);
        k += 1;
    }
    r
}

/// Maps a tree's branches from stretched coordinates back to the pins' own.
pub fn map_back(t: &mut RsmtTree, xs: &[i32], nxs: &[i32], ys: &[i32], nys: &[i32])
    requires
        xs@.len() == nxs@.len(),
        ys@.len() == xs@.len(),
        nys@.len() == xs@.len(),
        xs@.len() <= i32::MAX,
    ensures
        final(t).deg == old(t).deg,
        final(t).length == old(t).length,
        final(t).branch@.len() == old(t).branch@.len(),
        forall|k: int| 0 <= k < old(t).branch@.len() ==> {
            &&& (#[trigger] final(t).branch@[k]).n == old(t).branch@[k].n
            &&& final(t).branch@[k].x == (match found(old(t).branch@[k].x, nxs@, 0, xs@.len() - 1) {
                Some(i) => xs@[i],
                None => -1i32,
            })
            &&& final(t).branch@[k].y == (match found(old(t).branch@[k].y, nys@, 0, xs@.len() - 1) {
                Some(i) => ys@[i],
                None => -1i32,
            })
        },
{
    let ghost b0 = t.branch@;
    let d: usize = xs.len();
    let mut k: usize = 0;
    while k < t.branch.len()
        invariant
            d == xs@.len() == nxs@.len() == ys@.len() == nys@.len(),
            d <= i32::MAX,
            k <= t.branch@.len() == b0.len(),
            t.deg == old(t).deg,
            t.length == old(t).length,
            forall|i: int| k <= i < b0.len() ==> #[trigger] t.branch@[i] == b0[i],
            forall|i: int| 0 <= i < k ==> {
                &&& (#[trigger] t.branch@[i]).n == b0[i].n
                &&& t.branch@[i].x == (match found(b0[i].x, nxs@, 0, d - 1) {
                    Some(i) => xs@[i],
                    None => -1i32,
                })
                &&& t.branch@[i].y == (match found(b0[i].y, nys@, 0, d - 1) {
                    Some(i) => ys@[i],
                    None => -1i32,
                })
            },
        decreases b0.len() - k,
    {
        let b = t.branch[k];
        let x: i32 = mapxy(b.x, xs, nxs, d);
        let y: i32 = mapxy(b.y, ys, nys, d);
        t.branch[k] = Branch { x, y, n: b.n };
        k += 1;
    }
}

// ---- segments of a tree ----

/// The segment of a branch: its ends in the order of x, and of two with the same x the parent first.
pub open spec fn branch_segment(branch: Seq<Branch>, j: int, edge_cost: i8) -> Segment {
    let (a, b) = (branch[j], branch[branch[j].n as int]);
    if a.x < b.x {
        Segment { x1: a.x, y1: a.y, x2: b.x, y2: b.y, edge_cost }
    } else {
        Segment { x1: b.x, y1: b.y, x2: a.x, y2: a.y, edge_cost }
    }
}

/// The length of a branch.
pub open spec fn branch_length(branch: Seq<Branch>, j: int) -> int {
    let (a, b) = (branch[j], branch[branch[j].n as int]);
    dist(a.x as int, b.x as int) + dist(a.y as int, b.y as int)
}

/// The segments of the first `n` branches, none for a branch without length; their bends unset.
pub open spec fn tree_segments(branch: Seq<Branch>, n: int, edge_cost: i8) -> Seq<RoutedSegment>
    decreases n,
{
    if n <= 0 {
        Seq::empty()
    } else {
        let s = tree_segments(branch, n - 1, edge_cost);
        if branch_length(branch, n - 1) > 0 {
            s.push(RoutedSegment { seg: branch_segment(branch, n - 1, edge_cost), x_first: false })
        } else {
            s
        }
    }
}

/// The length of the first `n` branches.
pub open spec fn tree_length(branch: Seq<Branch>, n: int) -> int
    decreases n,
{
    if n <= 0 { 0 } else { tree_length(branch, n - 1) + branch_length(branch, n - 1) }
}

/// Whether every branch leads to a node of the tree.
pub open spec fn parents_fit(branch: Seq<Branch>) -> bool {
    forall|i: int| 0 <= i < branch.len() ==> (#[trigger] branch[i]).n < branch.len()
}

/// Adds a tree's segments to a net's list. The segments of an earlier tree stay in it. Returns the
/// length of the tree.
pub fn append_segments(t: &RsmtTree, edge_cost: i8, seglist: &mut Vec<RoutedSegment>) -> (wirelength: i64)
    requires
        parents_fit(t.branch@),
        tree_length(t.branch@, t.branch@.len() as int) <= i64::MAX,
    ensures
        final(seglist)@ == old(seglist)@ + tree_segments(t.branch@, t.branch@.len() as int, edge_cost),
        wirelength == tree_length(t.branch@, t.branch@.len() as int),
{
    let ghost s0 = seglist@;
    let mut wirelength: i64 = 0;
    let mut j: usize = 0;
    while j < t.branch.len()
        invariant
            j <= t.branch@.len(),
            parents_fit(t.branch@),
            tree_length(t.branch@, t.branch@.len() as int) <= i64::MAX,
            seglist@ == s0 + tree_segments(t.branch@, j as int, edge_cost),
            wirelength == tree_length(t.branch@, j as int),
            wirelength >= 0,
        decreases t.branch@.len() - j,
    {
        proof {
            lemma_length_grows(t.branch@, j + 1, t.branch@.len() as int);
        }
        let a = t.branch[j];
        let b = t.branch[a.n];
        wirelength = wirelength + (gap(a.x, b.x) + gap(a.y, b.y));
        if a.x != b.x || a.y != b.y {
            let seg = if a.x < b.x {
                Segment { x1: a.x, y1: a.y, x2: b.x, y2: b.y, edge_cost }
            } else {
                Segment { x1: b.x, y1: b.y, x2: a.x, y2: a.y, edge_cost }
            };
            seglist.push(RoutedSegment { seg, x_first: false });
            assert(seglist@ =~= s0 + tree_segments(t.branch@, j + 1, edge_cost));
        }
        j += 1;
    }
    wirelength
}

proof fn lemma_length_grows(branch: Seq<Branch>, a: int, b: int)
    requires
        0 <= a <= b,
    ensures
        tree_length(branch, a) <= tree_length(branch, b),
    decreases b,
{
    if a < b {
        lemma_length_grows(branch, a, b - 1);
    }
}

// ---- the router's copy of a tree ----

/// A tree edge's route type.
#[derive(Debug, Clone, Copy, PartialEq, Eq, Structural)]
pub enum RouteKind {
    NoRoute,
    LRoute,
    ZRoute,
    MazeRoute,
}

/// A tree edge's route: its type, what the L and the Z shapes read, and the walked-out maze route.
#[derive(Debug, Clone)]
pub struct TreeRoute {
    pub kind: RouteKind,
    pub x_first: bool,
    pub hvh: bool,
    pub z_point: i16,
    /// The route's cells, one more than its steps.
    pub grids: Vec<(i32, i32)>,
    pub routelen: i32,
    pub last_routelen: i32,
    /// Each cell's layer, empty until layers are assigned.
    pub layers: Vec<i16>,
}

/// Whether a route is that of an edge that nothing has routed yet.
pub open spec fn is_unrouted(r: TreeRoute) -> bool {
    &&& r.kind == RouteKind::NoRoute
    &&& !r.x_first
    &&& !r.hvh
    &&& r.z_point == -1
    &&& r.grids@ == Seq::<(i32, i32)>::empty()
    &&& r.routelen == 0
    &&& r.last_routelen == 0
    &&& r.layers@ == Seq::<i16>::empty()
}

impl Default for TreeRoute {
    fn default() -> (r: Self)
        ensures
            is_unrouted(r),
    {
        TreeRoute {
            kind: RouteKind::NoRoute,
            x_first: false,
            hvh: false,
            z_point: -1,
            grids: Vec::new(),
            routelen: 0,
            last_routelen: 0,
            layers: Vec::new(),
        }
    }
}

/// A route as a rip-up undoes it.
#[derive(Debug)]
pub enum RoutedShape {
    Unrouted,
    L { x_first: bool },
    Z { hvh: bool, z_point: i32 },
    Maze { grids: Vec<(i32, i32)>, routelen: usize },
}

impl TreeRoute {
    /// The route as a rip-up undoes it.
    pub fn shape(&self) -> (s: RoutedShape)
        requires
            self.kind == RouteKind::MazeRoute ==> self.routelen >= 0,
        ensures
            match self.kind {
                RouteKind::NoRoute => s is Unrouted,
                RouteKind::LRoute => s == (RoutedShape::L { x_first: self.x_first }),
                RouteKind::ZRoute => s == (RoutedShape::Z { hvh: self.hvh, z_point: self.z_point as i32 }),
                RouteKind::MazeRoute => s matches RoutedShape::Maze { grids, routelen } && grids@ == self.grids@ && routelen == self.routelen,
            },
    {
        match self.kind {
            RouteKind::NoRoute => RoutedShape::Unrouted,
            RouteKind::LRoute => RoutedShape::L { x_first: self.x_first },
            RouteKind::ZRoute => RoutedShape::Z { hvh: self.hvh, z_point: self.z_point as i32 },
            RouteKind::MazeRoute => RoutedShape::Maze { grids: copy_vec(&self.grids), routelen: self.routelen as usize },
        }
    }
}

/// A node of the router's tree: terminals have status 2, Steiner nodes 0.
#[derive(Debug, Clone, Copy, PartialEq, Eq, Structural)]
pub struct TreeNode {
    pub x: i16,
    pub y: i16,
    pub status: i32,
}

/// An edge of the router's tree, from its end with the lower x.
#[derive(Debug, Clone, Copy, PartialEq, Eq, Structural)]
pub struct TreeEdge {
    pub n1: usize,
    pub n2: usize,
    pub len: i32,
}

/// The router's copy of a net's tree.
#[derive(Debug)]
pub struct StTree {
    pub num_terminals: usize,
    pub nodes: Vec<TreeNode>,
    /// Per node, its neighbours and the edge to each.
    pub nbr: Vec<Vec<usize>>,
    pub edge: Vec<Vec<usize>>,
    pub edges: Vec<TreeEdge>,
    /// Per terminal, the pin at its node, -1 for none.
    pub node_to_pin_idx: Vec<i32>,
    /// Per edge, its route.
    pub routes: Vec<TreeRoute>,
}

/// A tree that the router cannot hold.
#[derive(Debug, Clone, Copy, PartialEq, Eq, Structural)]
pub enum CopyTreeError {
    /// A node with more than three neighbours.
    InvalidNeighbors,
    /// The edges do not number one less than the nodes.
    EdgeCount { edges: usize, nodes: usize },
}

/// The number of edges among the first `n` branches: one for each that does not lead to itself.
pub open spec fn edge_count(branch: Seq<Branch>, n: int) -> int
    decreases n,
{
    if n <= 0 { 0 } else { edge_count(branch, n - 1) + (if branch[n - 1].n != n - 1 { 1int } else { 0int }) }
}

/// The neighbours of node `v` by the first `n` branches, in the order of the branches.
pub open spec fn nbr_list(branch: Seq<Branch>, v: int, n: int) -> Seq<usize>
    decreases n,
{
    if n <= 0 {
        Seq::empty()
    } else {
        let s = nbr_list(branch, v, n - 1);
        let b = branch[n - 1];
        if b.n == n - 1 {
            s
        } else if v == n - 1 {
            s.push(b.n)
        } else if v == b.n {
            s.push((n - 1) as usize)
        } else {
            s
        }
    }
}

/// The edges to those neighbours.
pub open spec fn nbr_edges(branch: Seq<Branch>, v: int, n: int) -> Seq<usize>
    decreases n,
{
    if n <= 0 {
        Seq::empty()
    } else {
        let s = nbr_edges(branch, v, n - 1);
        let b = branch[n - 1];
        if b.n != n - 1 && (v == n - 1 || v == b.n) { s.push(edge_count(branch, n - 1) as usize) } else { s }
    }
}

/// The edges of the first `n` branches: each from its end with the lower x, the parent first where
/// both have the same.
pub open spec fn edge_list(branch: Seq<Branch>, n: int) -> Seq<TreeEdge>
    decreases n,
{
    if n <= 0 {
        Seq::empty()
    } else {
        let s = edge_list(branch, n - 1);
        let b = branch[n - 1];
        if b.n == n - 1 {
            s
        } else {
            let (n1, n2) = if b.x < branch[b.n as int].x { ((n - 1) as usize, b.n) } else { (b.n, (n - 1) as usize) };
            s.push(TreeEdge { n1, n2, len: branch_length(branch, n - 1) as i32 })
        }
    }
}

/// Whether branch `i` would give a node a fourth neighbour.
pub open spec fn overfills(branch: Seq<Branch>, i: int) -> bool {
    branch[i].n != i && (nbr_list(branch, i, i).len() >= 3 || nbr_list(branch, branch[i].n as int, i).len() >= 3)
}

/// Whether a node would get a fourth neighbour.
pub open spec fn is_overfull(branch: Seq<Branch>) -> bool {
    exists|i: int| 0 <= i < branch.len() && #[trigger] overfills(branch, i)
}

/// A node of the router's tree.
pub open spec fn tree_node(branch: Seq<Branch>, deg: int, i: int) -> TreeNode {
    TreeNode { x: branch[i].x as i16, y: branch[i].y as i16, status: if i < deg { 2 } else { 0 } }
}

/// The number of the first `n` pins at a position.
pub open spec fn pins_at(px: Seq<i32>, py: Seq<i32>, x: int, y: int, n: int) -> int
    decreases n,
{
    if n <= 0 { 0 } else { pins_at(px, py, x, y, n - 1) + (if px[n - 1] == x && py[n - 1] == y { 1int } else { 0int }) }
}

/// The place of the `count`-th pin at a position among the first `n`, or -1.
pub open spec fn pin_place(px: Seq<i32>, py: Seq<i32>, x: int, y: int, count: int, n: int) -> int
    decreases n,
{
    if n <= 0 {
        -1
    } else {
        let p = pin_place(px, py, x, y, count, n - 1);
        if p >= 0 {
            p
        } else if px[n - 1] == x && py[n - 1] == y && pins_at(px, py, x, y, n) == count {
            n - 1
        } else {
            -1
        }
    }
}

/// The number of the first `n` nodes at the place of node `i`.
pub open spec fn nodes_like(nodes: Seq<TreeNode>, i: int, n: int) -> int
    decreases n,
{
    if n <= 0 { 0 } else { nodes_like(nodes, i, n - 1) + (if nodes[n - 1].x == nodes[i].x && nodes[n - 1].y == nodes[i].y { 1int } else { 0int }) }
}

/// The place of the `count`-th pin at `(x, y)`, or -1.
pub fn pin_idx_from_position(net: &RsmtNet, x: i32, y: i32, count: i32) -> (r: i32)
    requires
        net.pins_x@.len() == net.pins_y@.len(),
        net.pins_x@.len() < i32::MAX,
    ensures
        r == pin_place(net.pins_x@, net.pins_y@, x as int, y as int, count as int, net.pins_x@.len() as int),
{
    let mut seen: i32 = 0;
    let mut k: usize = 0;
    while k < net.pins_x.len()
        invariant
            k <= net.pins_x@.len() == net.pins_y@.len(),
            net.pins_x@.len() < i32::MAX,
            0 <= seen <= k,
            seen == pins_at(net.pins_x@, net.pins_y@, x as int, y as int, k as int),
            pin_place(net.pins_x@, net.pins_y@, x as int, y as int, count as int, k as int) == -1,
        decreases net.pins_x@.len() - k,
    {
        if x == net.pins_x[k] && y == net.pins_y[k] {
            seen += 1;
            if seen == count {
                proof {
                    lemma_place_stays(net.pins_x@, net.pins_y@, x as int, y as int, count as int, k + 1, net.pins_x@.len() as int);
                }
                return k as i32;
            }
        }
        k += 1;
    }
    -1
}

proof fn lemma_place_stays(px: Seq<i32>, py: Seq<i32>, x: int, y: int, count: int, k: int, n: int)
    requires
        pin_place(px, py, x, y, count, k) >= 0,
        k <= n,
    ensures
        pin_place(px, py, x, y, count, n) == pin_place(px, py, x, y, count, k),
    decreases n,
{
    if k < n {
        lemma_place_stays(px, py, x, y, count, k, n - 1);
    }
}

/// Whether the copy of a tree holds what it should.
pub open spec fn is_copy(t: RsmtTree, net: RsmtNet, r: StTree) -> bool {
    let n = t.branch@.len() as int;
    &&& r.num_terminals == t.deg
    &&& r.nodes@ == Seq::new(n as nat, |i: int| tree_node(t.branch@, t.deg as int, i))
    &&& r.nbr@.len() == n
    &&& r.edge@.len() == n
    &&& forall|v: int| 0 <= v < n ==> (#[trigger] r.nbr@[v])@ == nbr_list(t.branch@, v, n)
    &&& forall|v: int| 0 <= v < n ==> (#[trigger] r.edge@[v])@ == nbr_edges(t.branch@, v, n)
    &&& r.edges@ == edge_list(t.branch@, n)
    &&& r.node_to_pin_idx@.len() == t.deg
    &&& forall|i: int| 0 <= i < t.deg ==> #[trigger] r.node_to_pin_idx@[i] == pin_place(
        net.pins_x@,
        net.pins_y@,
        r.nodes@[i].x as int,
        r.nodes@[i].y as int,
        nodes_like(r.nodes@, i, i + 1),
        net.pins_x@.len() as int,
    )
    &&& r.routes@.len() == n - 1
    &&& forall|k: int| 0 <= k < r.routes@.len() ==> is_unrouted(#[trigger] r.routes@[k])
}

/// Copies a tree into the router's form.
///
/// The neighbours of a node are listed in the order of the branches. The pin of a terminal is the
/// k-th at its position, where k counts the terminals there so far: stacked pins map one to one.
///
/// Refused with [`CopyTreeError::InvalidNeighbors`] where a node has more than three neighbours, and
/// otherwise with [`CopyTreeError::EdgeCount`] where the edges are not one fewer than the nodes.
pub fn copy_st_tree(rsmt: &RsmtTree, net: &RsmtNet) -> (r: Result<StTree, CopyTreeError>)
    requires
        rsmt.branch@.len() > 0,
        rsmt.deg <= rsmt.branch@.len(),
        rsmt.branch@.len() < i32::MAX,
        parents_fit(rsmt.branch@),
        forall|i: int| 0 <= i < rsmt.branch@.len() ==> fits(#[trigger] branch_length(rsmt.branch@, i)),
        net.pins_x@.len() == net.pins_y@.len(),
        net.pins_x@.len() < i32::MAX,
    ensures
        match r {
            Ok(t) => {
                &&& forall|i: int| 0 <= i < rsmt.branch@.len() ==> !#[trigger] overfills(rsmt.branch@, i)
                &&& edge_count(rsmt.branch@, rsmt.branch@.len() as int) == rsmt.branch@.len() - 1
                &&& is_copy(*rsmt, *net, t)
            },
            Err(CopyTreeError::InvalidNeighbors) => is_overfull(rsmt.branch@),
            Err(CopyTreeError::EdgeCount { edges, nodes }) => {
                &&& forall|i: int| 0 <= i < rsmt.branch@.len() ==> !#[trigger] overfills(rsmt.branch@, i)
                &&& edges == edge_count(rsmt.branch@, rsmt.branch@.len() as int)
                &&& nodes == rsmt.branch@.len()
                &&& edges != nodes - 1
            },
        },
{
    let n: usize = rsmt.branch.len();
    let d: usize = rsmt.deg;
    let ghost br = rsmt.branch@;
    let mut nodes: Vec<TreeNode> = Vec::new();
    let mut nbr: Vec<Vec<usize>> = Vec::new();
    let mut edge: Vec<Vec<usize>> = Vec::new();
    let mut edges: Vec<TreeEdge> = Vec::new();
    let mut k: usize = 0;
    while k < n
        invariant
            k <= n,
            nbr@.len() == k,
            edge@.len() == k,
            forall|v: int| 0 <= v < k ==> (#[trigger] nbr@[v])@ == nbr_list(br, v, 0),
            forall|v: int| 0 <= v < k ==> (#[trigger] edge@[v])@ == nbr_edges(br, v, 0),
        decreases n - k,
    {
        nbr.push(Vec::new());
        edge.push(Vec::new());
        k += 1;
    }
    let mut i: usize = 0;
    while i < n
        invariant
            i <= n == rsmt.branch@.len(),
            n < i32::MAX,
            br == rsmt.branch@,
            d == rsmt.deg,
            parents_fit(br),
            forall|i: int| 0 <= i < br.len() ==> fits(#[trigger] branch_length(br, i)),
            forall|j: int| 0 <= j < i ==> !#[trigger] overfills(br, j),
            nodes@ == Seq::new(i as nat, |j: int| tree_node(br, d as int, j)),
            nbr@.len() == n,
            edge@.len() == n,
            forall|v: int| 0 <= v < n ==> (#[trigger] nbr@[v])@ == nbr_list(br, v, i as int),
            forall|v: int| 0 <= v < n ==> (#[trigger] edge@[v])@ == nbr_edges(br, v, i as int),
            edges@ == edge_list(br, i as int),
            edges@.len() == edge_count(br, i as int),
            edges@.len() <= i,
        decreases n - i,
    {
        let b = rsmt.branch[i];
        let up = rsmt.branch[b.n];
        nodes.push(TreeNode { x: b.x as i16, y: b.y as i16, status: if i < d { 2 } else { 0 } });
        assert(nodes@ =~= Seq::new((i + 1) as nat, |j: int| tree_node(br, d as int, j)));
        if b.n != i {
            assert(nbr@[i as int]@ == nbr_list(br, i as int, i as int));
            assert(nbr@[b.n as int]@ == nbr_list(br, b.n as int, i as int));
            if nbr[i].len() >= 3 || nbr[b.n].len() >= 3 {
                assert(overfills(br, i as int));
                return Err(CopyTreeError::InvalidNeighbors);
            }
            let len64: i64 = gap(b.x, up.x) + gap(b.y, up.y);
            assert(fits(branch_length(br, i as int)));
            let len: i32 = len64 as i32;
            let (n1, n2) = if b.x < up.x { (i, b.n) } else { (b.n, i) };
            let e: usize = edges.len();
            edges.push(TreeEdge { n1, n2, len });
            let ghost (nbr0, edge0) = (nbr@, edge@);
            nbr[i].push(b.n);
            edge[i].push(e);
            nbr[b.n].push(i);
            edge[b.n].push(e);
            proof {
                assert forall|v: int| 0 <= v < n implies (#[trigger] nbr@[v])@ == nbr_list(br, v, i + 1) by {
                    assert(nbr0[v]@ == nbr_list(br, v, i as int));
                }
                assert forall|v: int| 0 <= v < n implies (#[trigger] edge@[v])@ == nbr_edges(br, v, i + 1) by {
                    assert(edge0[v]@ == nbr_edges(br, v, i as int));
                }
            }
        } else {
            proof {
                assert forall|v: int| 0 <= v < n implies (#[trigger] nbr@[v])@ == nbr_list(br, v, i + 1) by {
                    assert(nbr@[v]@ == nbr_list(br, v, i as int));
                }
                assert forall|v: int| 0 <= v < n implies (#[trigger] edge@[v])@ == nbr_edges(br, v, i + 1) by {
                    assert(edge@[v]@ == nbr_edges(br, v, i as int));
                }
            }
        }
        assert(!overfills(br, i as int));
        i += 1;
    }
    if edges.len() != n - 1 {
        return Err(CopyTreeError::EdgeCount { edges: edges.len(), nodes: n });
    }
    let mut node_to_pin_idx: Vec<i32> = Vec::new();
    i = 0;
    while i < d
        invariant
            i <= d <= n < i32::MAX,
            nodes@.len() == n,
            net.pins_x@.len() == net.pins_y@.len(),
            net.pins_x@.len() < i32::MAX,
            node_to_pin_idx@.len() == i,
            forall|j: int| 0 <= j < i ==> #[trigger] node_to_pin_idx@[j] == pin_place(
                net.pins_x@,
                net.pins_y@,
                nodes@[j].x as int,
                nodes@[j].y as int,
                nodes_like(nodes@, j, j + 1),
                net.pins_x@.len() as int,
            ),
        decreases d - i,
    {
        let mut c: i32 = 0;
        let mut j: usize = 0;
        while j <= i
            invariant
                i < n < i32::MAX,
                j <= i + 1,
                0 <= c <= j,
                nodes@.len() == n,
                c == nodes_like(nodes@, i as int, j as int),
            decreases i + 1 - j,
        {
            if nodes[j].x == nodes[i].x && nodes[j].y == nodes[i].y {
                c += 1;
            }
            j += 1;
        }
        let p: i32 = pin_idx_from_position(net, nodes[i].x as i32, nodes[i].y as i32, c);
        node_to_pin_idx.push(p);
        i += 1;
    }
    let mut routes: Vec<TreeRoute> = Vec::new();
    k = 0;
    while k < n - 1
        invariant
            n > 0,
            k <= n - 1,
            routes@.len() == k,
            forall|j: int| 0 <= j < k ==> is_unrouted(#[trigger] routes@[j]),
        decreases n - 1 - k,
    {
        let r = TreeRoute::default();
        routes.push(r);
        k += 1;
    }
    Ok(StTree { num_terminals: d, nodes, nbr, edge, edges, node_to_pin_idx, routes })
}

/// The number of neighbours that the first `n` branches give all nodes is twice that of their edges.
/// So a tree that is not refused has as many neighbours in all as twice its edges.
pub proof fn every_edge_has_two_ends(branch: Seq<Branch>, n: int)
    requires
        0 <= n <= branch.len(),
        parents_fit(branch),
    ensures
        nbrs_in_all(branch, branch.len() as int, n) == 2 * edge_count(branch, n),
    decreases n,
{
    if n > 0 {
        every_edge_has_two_ends(branch, n - 1);
        lemma_nbrs_step(branch, branch.len() as int, n);
    } else {
        lemma_no_nbrs(branch, branch.len() as int);
    }
}

/// The neighbours that the first `n` branches give the first `m` nodes.
pub open spec fn nbrs_in_all(branch: Seq<Branch>, m: int, n: int) -> int
    decreases m,
{
    if m <= 0 { 0 } else { nbrs_in_all(branch, m - 1, n) + nbr_list(branch, m - 1, n).len() }
}

proof fn lemma_no_nbrs(branch: Seq<Branch>, m: int)
    ensures
        nbrs_in_all(branch, m, 0) == 0,
    decreases m,
{
    if m > 0 {
        lemma_no_nbrs(branch, m - 1);
    }
}

proof fn lemma_nbrs_step(branch: Seq<Branch>, m: int, n: int)
    requires
        0 < n <= branch.len(),
        0 <= m <= branch.len(),
        parents_fit(branch),
    ensures
        nbrs_in_all(branch, m, n) == nbrs_in_all(branch, m, n - 1) + (if branch[n - 1].n == n - 1 { 0int } else {
            (if n - 1 < m { 1int } else { 0int }) + (if branch[n - 1].n < m { 1int } else { 0int })
        }),
    decreases m,
{
    if m > 0 {
        lemma_nbrs_step(branch, m - 1, n);
    }
}

// ---- L routes of tree edges ----

/// How an edge was routed.
#[derive(Debug, Clone, Copy, PartialEq, Eq, Structural)]
pub enum EdgeRoute {
    Vertical,
    Horizontal,
    L(LShape),
}

/// Whether a route goes along x first.
pub open spec fn goes_x_first(r: EdgeRoute) -> bool {
    r == EdgeRoute::Horizontal || r == EdgeRoute::L(LShape::XFirst)
}

/// Records the routes of a tree's edges: an edge of positive length becomes an L, level and upright
/// edges too, and one without length becomes unrouted and keeps its other fields.
pub fn newroute_l(tree: &mut StTree, bends: &[EdgeRoute])
    requires
        old(tree).routes@.len() == old(tree).edges@.len(),
        bends@.len() == old(tree).edges@.len(),
    ensures
        final(tree).num_terminals == old(tree).num_terminals,
        final(tree).nodes == old(tree).nodes,
        final(tree).nbr == old(tree).nbr,
        final(tree).edge == old(tree).edge,
        final(tree).edges == old(tree).edges,
        final(tree).node_to_pin_idx == old(tree).node_to_pin_idx,
        final(tree).routes@.len() == old(tree).routes@.len(),
        forall|i: int| 0 <= i < final(tree).routes@.len() ==> #[trigger] final(tree).routes@[i] == (if old(tree).edges@[i].len <= 0 {
            TreeRoute { kind: RouteKind::NoRoute, ..old(tree).routes@[i] }
        } else {
            TreeRoute { kind: RouteKind::LRoute, x_first: goes_x_first(bends@[i]), ..old(tree).routes@[i] }
        }),
{
    let ghost t0 = *tree;
    let mut i: usize = 0;
    while i < tree.edges.len()
        invariant
            i <= tree.edges@.len(),
            tree.num_terminals == t0.num_terminals,
            tree.nodes == t0.nodes,
            tree.nbr == t0.nbr,
            tree.edge == t0.edge,
            tree.edges == t0.edges,
            tree.node_to_pin_idx == t0.node_to_pin_idx,
            tree.routes@.len() == t0.routes@.len() == t0.edges@.len() == bends@.len(),
            forall|j: int| i <= j < t0.routes@.len() ==> #[trigger] tree.routes@[j] == t0.routes@[j],
            forall|j: int| 0 <= j < i ==> #[trigger] tree.routes@[j] == (if t0.edges@[j].len <= 0 {
                TreeRoute { kind: RouteKind::NoRoute, ..t0.routes@[j] }
            } else {
                TreeRoute { kind: RouteKind::LRoute, x_first: goes_x_first(bends@[j]), ..t0.routes@[j] }
            }),
        decreases t0.edges@.len() - i,
    {
        let len: i32 = tree.edges[i].len;
        if len <= 0 {
            tree.routes[i].kind = RouteKind::NoRoute;
        } else {
            let x_first = match bends[i] {
                EdgeRoute::Vertical => false,
                EdgeRoute::Horizontal => true,
                EdgeRoute::L(s) => match s {
                    LShape::XFirst => true,
                    LShape::YFirst => false,
                },
            };
            tree.routes[i].kind = RouteKind::LRoute;
            tree.routes[i].x_first = x_first;
        }
        i += 1;
    }
}

// ---- which builder, and with what coefficient ----

/// The stage's flags.
#[derive(Debug, Clone, Copy, PartialEq, Eq, Structural)]
pub struct BrkFlags {
    pub congestion_driven: bool,
    pub re_route: bool,
    pub gen_tree: bool,
    pub no_adj: bool,
}

/// Which builder a net's tree comes from.
#[derive(Debug, Clone, Copy, PartialEq, Eq, Structural)]
pub enum TreeKind {
    /// The Steiner-tree engine.
    Stt,
    /// The sorted pins, scaled.
    Normal,
    /// The sorted pins, stretched by congestion.
    Congest,
}

/// The vertical coefficient that a builder is given.
#[derive(Debug, Clone, Copy, PartialEq, Eq, Structural)]
pub enum Coefficient {
    Default,
    NoAdjustments,
    /// By the scarcity of vertical capacity over the net's box.
    Adjusted,
}

/// What a net's tree is built with.
#[derive(Debug, Clone, Copy, PartialEq, Eq, Structural)]
pub struct TreePlan {
    pub kind: TreeKind,
    pub coefficient: Option<Coefficient>,
    /// Whether the tree's edges are shifted off congestion afterwards.
    pub shift: bool,
}

/// Which builder a net's tree comes from, and with what coefficient. A net with a positive alpha
/// takes the Steiner-tree engine. Otherwise the congestion-driven stage stretches the pins of a
/// congested net and shifts the edges of one with more than three pins; the first stage takes the
/// coefficient without adjustments also for a net that is wide enough.
pub fn build_tree(flags: BrkFlags, positive_alpha: bool, pins: usize, wide: bool, congested: bool) -> (p: TreePlan)
    ensures
        p.kind == (if positive_alpha {
            TreeKind::Stt
        } else if flags.congestion_driven && congested {
            TreeKind::Congest
        } else {
            TreeKind::Normal
        }),
        p.coefficient == (if positive_alpha {
            None
        } else if flags.no_adj {
            Some(Coefficient::NoAdjustments)
        } else if flags.congestion_driven {
            Some(Coefficient::Adjusted)
        } else if wide {
            Some(Coefficient::NoAdjustments)
        } else {
            Some(Coefficient::Default)
        }),
        p.shift == (!positive_alpha && flags.congestion_driven && pins > 3),
{
    if positive_alpha {
        return TreePlan { kind: TreeKind::Stt, coefficient: None, shift: false };
    }
    if flags.congestion_driven {
        let coefficient = if flags.no_adj { Coefficient::NoAdjustments } else { Coefficient::Adjusted };
        let kind = if congested { TreeKind::Congest } else { TreeKind::Normal };
        TreePlan { kind, coefficient: Some(coefficient), shift: pins > 3 }
    } else {
        let coefficient = if flags.no_adj || wide { Coefficient::NoAdjustments } else { Coefficient::Default };
        TreePlan { kind: TreeKind::Normal, coefficient: Some(coefficient), shift: false }
    }
}

// ---- shifting edges off congestion ----

/// A number brought into the range of a sum.
pub open spec fn kept(v: int) -> int {
    if v > i32::MAX {
        i32::MAX as int
    } else if v < i32::MIN {
        i32::MIN as int
    } else {
        v
    }
}

/// A sum of demands: each, in halves, is added to the sum so far, and the fraction of the result
/// dropped. The sum stops at the ends of its range.
pub open spec fn plus_half(acc: int, v: int) -> int {
    kept(tdiv(2 * acc + v, 2))
}

fn half_sum(acc: i128, v: i128) -> (r: i128)
    requires
        -0x8000_0000 <= acc <= 0x7fff_ffff,
        -0x100_0000_0000 <= v <= 0x100_0000_0000,
    ensures
        r == plus_half(acc as int, v as int),
        -0x8000_0000 <= r <= 0x7fff_ffff,
{
    let s: i128 = (2 * acc + v) / 2;
    if s > 0x7fff_ffff {
        0x7fff_ffff
    } else if s < -0x8000_0000 {
        -0x8000_0000
    } else {
        s
    }
}

/// The demand along a row from column `a` up to `b`, added to a sum.
pub open spec fn run_h(est: EstimateGrid, y: int, a: int, b: int, acc: int) -> int
    decreases b - a,
{
    if b <= a { acc } else { plus_half(run_h(est, y, a, b - 1, acc), est.eh(b - 1, y)) }
}

/// The demand along a column from row `a` up to `b`, added to a sum.
pub open spec fn run_v(est: EstimateGrid, x: int, a: int, b: int, acc: int) -> int
    decreases b - a,
{
    if b <= a { acc } else { plus_half(run_v(est, x, a, b - 1, acc), est.ev(x, b - 1)) }
}

/// The demand along the cheaper of the two L's between the corners of a box.
pub open spec fn side_cost(est: EstimateGrid, x1: int, x2: int, y1: int, y2: int) -> int {
    least(
        run_v(est, x2, y1, y2, run_h(est, y1, x1, x2, 0)),
        run_v(est, x1, y1, y2, run_h(est, y2, x1, x2, 0)),
    )
}

/// A tree's root: the first Steiner node from `i` on that is its own parent, node 0 for none.
pub open spec fn root_from(branch: Seq<Branch>, i: int) -> int
    decreases branch.len() - i,
{
    if i >= branch.len() {
        0
    } else if branch[i].n == i {
        i
    } else {
        root_from(branch, i + 1)
    }
}

/// The neighbours that a shift reads: three slots for every node, one node's after the other's, and how many
/// neighbours each node has. One that has more than three runs on into the next node's slots.
#[verifier::ext_equal]
pub struct ShiftTable {
    pub nbr: Seq<usize>,
    pub cnt: Seq<usize>,
}

/// Whether a table has room for one neighbour more of node `v`.
pub open spec fn can_enter(t: ShiftTable, v: int) -> bool {
    0 <= v < t.cnt.len() && 3 * v + t.cnt[v] < t.nbr.len()
}

/// A table with `u` entered as the next neighbour of `v`.
pub open spec fn entered(t: ShiftTable, v: int, u: int) -> ShiftTable {
    ShiftTable { nbr: t.nbr.update(3 * v + t.cnt[v], u as usize), cnt: t.cnt.update(v, (t.cnt[v] + 1) as usize) }
}

/// The table of `size` nodes by the first `n` branches: a terminal is a neighbour of its parent, and a Steiner
/// node other than the root and its parent of each other. A slot that is not filled names node 0.
pub open spec fn table_upto(branch: Seq<Branch>, deg: int, root: int, size: int, n: int) -> ShiftTable
    decreases n,
{
    if n <= 0 {
        ShiftTable { nbr: Seq::new((3 * size) as nat, |i: int| 0usize), cnt: Seq::new(size as nat, |i: int| 0usize) }
    } else {
        let t = table_upto(branch, deg, root, size, n - 1);
        let p = branch[n - 1].n as int;
        if n - 1 < deg {
            entered(t, p, n - 1)
        } else if n - 1 != root {
            entered(entered(t, n - 1, p), p, n - 1)
        } else {
            t
        }
    }
}

/// Whether the table has room for the `i`-th branch.
pub open spec fn has_room(branch: Seq<Branch>, deg: int, root: int, size: int, i: int) -> bool {
    let t = table_upto(branch, deg, root, size, i);
    let p = branch[i].n as int;
    if i < deg {
        can_enter(t, p)
    } else {
        i != root ==> can_enter(t, i) && can_enter(entered(t, i, p), p)
    }
}

/// The table of a tree's neighbours, for a net of so many pins.
pub open spec fn shift_table(branch: Seq<Branch>, deg: int, pins: int) -> ShiftTable {
    table_upto(branch, deg, root_from(branch, deg), 2 * pins, branch.len() as int)
}

/// The neighbour in one of a node's slots.
pub open spec fn slot(t: ShiftTable, v: int, j: int) -> int {
    t.nbr[3 * v + j] as int
}

/// The coordinate along which an edge shifts: y for a level one, x for an upright one.
pub open spec fn coord(b: Branch, level: bool) -> int {
    if level { b.y as int } else { b.x as int }
}

/// The least coordinate of a node and of those in its slots.
pub open spec fn span_lo(branch: Seq<Branch>, rows: ShiftTable, v: int, level: bool) -> int {
    least(
        least(coord(branch[v], level), coord(branch[slot(rows, v, 0)], level)),
        least(coord(branch[slot(rows, v, 1)], level), coord(branch[slot(rows, v, 2)], level)),
    )
}

/// The greatest coordinate of a node and of those in its slots.
pub open spec fn span_hi(branch: Seq<Branch>, rows: ShiftTable, v: int, level: bool) -> int {
    most(
        most(coord(branch[v], level), coord(branch[slot(rows, v, 0)], level)),
        most(coord(branch[slot(rows, v, 1)], level), coord(branch[slot(rows, v, 2)], level)),
    )
}

/// The cost of the L between node `end`, shifted to `j`, and its neighbour `n3`.
pub open spec fn nbr_cost(est: EstimateGrid, branch: Seq<Branch>, end: int, n3: int, j: int, level: bool) -> int {
    let (a, b) = (branch[end], branch[n3]);
    if level {
        side_cost(est, least(a.x as int, b.x as int), most(a.x as int, b.x as int), least(j, b.y as int), most(j, b.y as int))
    } else {
        side_cost(est, least(j, b.x as int), most(j, b.x as int), least(a.y as int, b.y as int), most(a.y as int, b.y as int))
    }
}

/// The costs of the first `l` neighbours of node `end`, shifted to `j`, other than `other`.
pub open spec fn end_cost(est: EstimateGrid, branch: Seq<Branch>, t: ShiftTable, end: int, other: int, j: int, level: bool, l: int) -> int
    decreases l,
{
    if l <= 0 {
        0
    } else {
        end_cost(est, branch, t, end, other, j, level, l - 1) + (if slot(t, end, l - 1) == other {
            0
        } else {
            nbr_cost(est, branch, end, slot(t, end, l - 1), j, level)
        })
    }
}

/// The cost of an edge shifted to `j`: its own, and that of the other neighbours of both its ends.
pub open spec fn pair_cost(est: EstimateGrid, branch: Seq<Branch>, t: ShiftTable, n1: int, n2: int, j: int, level: bool) -> int {
    (if level {
        run_h(est, j, branch[n1].x as int, branch[n2].x as int, 0)
    } else {
        run_v(est, j, branch[n1].y as int, branch[n2].y as int, 0)
    }) + end_cost(est, branch, t, n1, n2, j, level, t.cnt[n1] as int) + end_cost(est, branch, t, n2, n1, j, level, t.cnt[n2] as int)
}

/// The least cost below `BIG_INT` of the places from `lo` up to `j`, and the first place that has it;
/// `cur` where there is none.
pub open spec fn best_place(est: EstimateGrid, branch: Seq<Branch>, rows: ShiftTable, n1: int, n2: int, level: bool, cur: int, lo: int, j: int) -> (int, int)
    decreases j - lo,
{
    if j <= lo {
        (BIG_INT as int, cur)
    } else {
        let (c, p) = best_place(est, branch, rows, n1, n2, level, cur, lo, j - 1);
        let here = pair_cost(est, branch, rows, n1, n2, j - 1, level);
        if here < c { (here, j - 1) } else { (c, p) }
    }
}

/// The edge of Steiner node `i` and its parent where it is level or upright and has length, from its
/// lower end.
pub open spec fn straight_pair(branch: Seq<Branch>, i: int) -> Option<(int, int)> {
    let n = branch[i].n as int;
    let (a, b) = (branch[i], branch[n]);
    if a.x == b.x {
        if a.y < b.y { Some((i, n)) } else if a.y > b.y { Some((n, i)) } else { None }
    } else if a.y == b.y {
        if a.x < b.x { Some((i, n)) } else { Some((n, i)) }
    } else {
        None
    }
}

/// The best move found so far: how much it helps, the edge and its new place.
pub struct ShiftMove {
    pub benefit: int,
    pub n1: int,
    pub n2: int,
    pub pos: int,
}

/// Whether an edge is level.
pub open spec fn is_level(branch: Seq<Branch>, n1: int, n2: int) -> bool {
    branch[n1].y == branch[n2].y
}

/// The band of places that an edge may shift to: what the neighbours of both its ends span.
pub open spec fn band(branch: Seq<Branch>, rows: ShiftTable, n1: int, n2: int) -> (int, int) {
    let level = is_level(branch, n1, n2);
    (
        most(span_lo(branch, rows, n1, level), span_lo(branch, rows, n2, level)),
        least(span_hi(branch, rows, n1, level), span_hi(branch, rows, n2, level)),
    )
}

/// The better of a move and that of an edge: the first of two that help as much.
pub open spec fn better(est: EstimateGrid, branch: Seq<Branch>, rows: ShiftTable, n1: int, n2: int, m: ShiftMove) -> ShiftMove {
    let level = is_level(branch, n1, n2);
    let (lo, hi) = band(branch, rows, n1, n2);
    let cur = coord(branch[n1], level);
    let (c, pos) = best_place(est, branch, rows, n1, n2, level, cur, lo, hi + 1);
    let benefit = pair_cost(est, branch, rows, n1, n2, cur, level) - c;
    if lo < hi && pos != cur && benefit > m.benefit { ShiftMove { benefit, n1, n2, pos } } else { m }
}

/// The move that helps most among the Steiner nodes from `deg` up to `i`.
pub open spec fn best_move(est: EstimateGrid, branch: Seq<Branch>, rows: ShiftTable, deg: int, i: int) -> ShiftMove
    decreases i - deg,
{
    if i <= deg {
        ShiftMove { benefit: -1, n1: 0, n2: 0, pos: 0 }
    } else {
        let m = best_move(est, branch, rows, deg, i - 1);
        match straight_pair(branch, i - 1) {
            Some((n1, n2)) => better(est, branch, rows, n1, n2, m),
            None => m,
        }
    }
}

/// A tree after a move: both ends of the edge at its new place.
pub open spec fn moved(branch: Seq<Branch>, m: ShiftMove) -> Seq<Branch> {
    if is_level(branch, m.n1, m.n2) {
        let s = branch.update(m.n1, Branch { y: m.pos as i32, ..branch[m.n1] });
        s.update(m.n2, Branch { y: m.pos as i32, ..s[m.n2] })
    } else {
        let s = branch.update(m.n1, Branch { x: m.pos as i32, ..branch[m.n1] });
        s.update(m.n2, Branch { x: m.pos as i32, ..s[m.n2] })
    }
}

/// A tree after at most `fuel` moves, each the one that helps most while one helps, and their number.
pub open spec fn shift_run(est: EstimateGrid, branch: Seq<Branch>, rows: ShiftTable, deg: int, fuel: nat) -> (Seq<Branch>, int)
    decreases fuel,
{
    let m = best_move(est, branch, rows, deg, branch.len() as int);
    if fuel == 0 || m.benefit <= 0 {
        (branch, 0)
    } else {
        let (b, c) = shift_run(est, moved(branch, m), rows, deg, (fuel - 1) as nat);
        (b, c + 1)
    }
}

/// A tree with its edges shifted, and the number of moves.
pub open spec fn edges_shifted(est: EstimateGrid, branch: Seq<Branch>, deg: int, pins: int) -> (Seq<Branch>, int) {
    shift_run(est, branch, shift_table(branch, deg, pins), deg, i32::MAX as nat)
}

/// The most demand of an edge, in halves.
pub const SHIFT_ROOM: i64 = 0xffff_ffff;

/// Whether a tree lies on the grid, its terminals lead to Steiner nodes, and the table of its neighbours has room.
pub open spec fn shift_fits(est: EstimateGrid, branch: Seq<Branch>, deg: int, pins: int) -> bool {
    &&& est.wf()
    &&& est.within(SHIFT_ROOM as int)
    &&& branch.len() <= i32::MAX
    &&& 6 * pins <= usize::MAX
    &&& forall|i: int| 0 <= i < branch.len() ==> {
        &&& (#[trigger] branch[i]).n < branch.len()
        &&& i < deg ==> deg <= branch[i].n
        &&& i >= deg && branch[i].n != i ==> i < 2 * pins && branch[i].n < 2 * pins
        &&& 0 <= branch[i].x < est.columns()
        &&& 0 <= branch[i].y < est.rows()
    }
    &&& forall|i: int| 0 <= i < branch.len() ==> #[trigger] has_room(branch, deg, root_from(branch, deg), 2 * pins, i)
}

/// Whether a tree of `n` nodes can be read by a table.
spec fn table_ok(t: ShiftTable, n: int, pins: int) -> bool {
    &&& t.cnt.len() == 2 * pins
    &&& t.nbr.len() == 6 * pins
    &&& forall|v: int| 0 <= v < t.cnt.len() ==> 3 * v + (#[trigger] t.cnt[v]) <= t.nbr.len() && t.cnt[v] <= 2 * n
    &&& forall|k: int| 0 <= k < t.nbr.len() ==> (#[trigger] t.nbr[k]) < n
}

/// Whether the nodes of one tree lead where those of another do.
spec fn same_links(a: Seq<Branch>, b: Seq<Branch>) -> bool {
    a.len() == b.len() && forall|i: int| 0 <= i < a.len() ==> (#[trigger] a[i]).n == b[i].n
}

proof fn lemma_same_root(a: Seq<Branch>, b: Seq<Branch>, i: int)
    requires
        same_links(a, b),
        i >= 0,
    ensures
        root_from(a, i) == root_from(b, i),
    decreases a.len() - i,
{
    if i < a.len() {
        assert(a[i].n == b[i].n);
        lemma_same_root(a, b, i + 1);
    }
}

proof fn lemma_same_table(a: Seq<Branch>, b: Seq<Branch>, deg: int, root: int, size: int, n: int)
    requires
        same_links(a, b),
        n <= a.len(),
    ensures
        table_upto(a, deg, root, size, n) == table_upto(b, deg, root, size, n),
    decreases n,
{
    if n > 0 {
        lemma_same_table(a, b, deg, root, size, n - 1);
        assert(a[n - 1].n == b[n - 1].n);
    }
}

fn sum_h(est: &EstimateGrid, y: i32, a: i32, b: i32) -> (r: i128)
    requires
        est.wf(),
        est.within(SHIFT_ROOM as int),
        0 <= a,
        b < est.columns(),
        0 <= y < est.rows(),
    ensures
        r == run_h(*est, y as int, a as int, b as int, 0),
        -0x8000_0000 <= r <= 0x7fff_ffff,
{
    let mut acc: i128 = 0;
    let mut x: i32 = a;
    while x < b
        invariant
            est.wf(),
            est.within(SHIFT_ROOM as int),
            0 <= a <= x,
            x <= b || b < a,
            b < est.columns(),
            0 <= y < est.rows(),
            -0x8000_0000 <= acc <= 0x7fff_ffff,
            acc == run_h(*est, y as int, a as int, x as int, 0),
            b < a ==> x == a,
        decreases b - x,
    {
        assert(est.has_h(x as int, y as int));
        let v: i64 = est.h(x as usize, y as usize);
        assert(-SHIFT_ROOM <= est.eh(x as int, y as int) <= SHIFT_ROOM);
        acc = half_sum(acc, v as i128);
        x += 1;
    }
    acc
}

fn sum_v(est: &EstimateGrid, x: i32, a: i32, b: i32, from: i128) -> (r: i128)
    requires
        est.wf(),
        est.within(SHIFT_ROOM as int),
        0 <= x < est.columns(),
        0 <= a,
        b < est.rows(),
        -0x8000_0000 <= from <= 0x7fff_ffff,
    ensures
        r == run_v(*est, x as int, a as int, b as int, from as int),
        -0x8000_0000 <= r <= 0x7fff_ffff,
{
    let mut acc: i128 = from;
    let mut y: i32 = a;
    while y < b
        invariant
            est.wf(),
            est.within(SHIFT_ROOM as int),
            0 <= x < est.columns(),
            0 <= a <= y,
            y <= b || b < a,
            b < est.rows(),
            -0x8000_0000 <= acc <= 0x7fff_ffff,
            acc == run_v(*est, x as int, a as int, y as int, from as int),
            b < a ==> y == a,
        decreases b - y,
    {
        assert(est.has_v(x as int, y as int));
        let v: i64 = est.v(x as usize, y as usize);
        assert(-SHIFT_ROOM <= est.ev(x as int, y as int) <= SHIFT_ROOM);
        acc = half_sum(acc, v as i128);
        y += 1;
    }
    acc
}

fn l_cost(est: &EstimateGrid, x1: i32, x2: i32, y1: i32, y2: i32) -> (r: i128)
    requires
        est.wf(),
        est.within(SHIFT_ROOM as int),
        0 <= x1 <= x2 < est.columns(),
        0 <= y1 <= y2 < est.rows(),
    ensures
        r == side_cost(*est, x1 as int, x2 as int, y1 as int, y2 as int),
        -0x8000_0000 <= r <= 0x7fff_ffff,
{
    let h1: i128 = sum_h(est, y1, x1, x2);
    let c1: i128 = sum_v(est, x2, y1, y2, h1);
    let h2: i128 = sum_h(est, y2, x1, x2);
    let c2: i128 = sum_v(est, x1, y1, y2, h2);
    if c1 < c2 { c1 } else { c2 }
}

fn ordered(a: i32, b: i32) -> (r: (i32, i32))
    ensures
        r.0 == least(a as int, b as int),
        r.1 == most(a as int, b as int),
{
    if a < b { (a, b) } else { (b, a) }
}

/// The table of neighbours.
struct Neighbours {
    nbr: Vec<usize>,
    cnt: Vec<usize>,
}

impl Neighbours {
    spec fn table(self) -> ShiftTable {
        ShiftTable { nbr: self.nbr@, cnt: self.cnt@ }
    }

    fn enter(&mut self, v: usize, u: usize)
        requires
            can_enter(old(self).table(), v as int),
        ensures
            final(self).table() == entered(old(self).table(), v as int, u as int),
    {
        let c: usize = self.cnt[v];
        let total: usize = self.nbr.len();
        assert(3 * v + c < total);
        self.nbr.set(3 * v + c, u);
        self.cnt.set(v, c + 1);
    }
}

fn end_cost_of(est: &EstimateGrid, branch: &Vec<Branch>, rows: &Neighbours, end: usize, other: usize, j: i32, level: bool, Ghost(deg): Ghost<int>, Ghost(pins): Ghost<int>) -> (r: i128)
    requires
        shift_fits(*est, branch@, deg, pins),
        table_ok(rows.table(), branch@.len() as int, pins),
        end < branch@.len(),
        end < 2 * pins,
        0 <= j,
        level ==> j < est.rows(),
        !level ==> j < est.columns(),
    ensures
        r == end_cost(*est, branch@, rows.table(), end as int, other as int, j as int, level, rows.table().cnt[end as int] as int),
        -0x1_0000_0000_0000_0000_0000_0000 <= r <= 0x1_0000_0000_0000_0000_0000_0000,
{
    let mut c: i128 = 0;
    let mut l: usize = 0;
    let count: usize = rows.cnt[end];
    assert(3 * end + rows.table().cnt[end as int] <= rows.table().nbr.len());
    while l < count
        invariant
            shift_fits(*est, branch@, deg, pins),
            table_ok(rows.table(), branch@.len() as int, pins),
            end < branch@.len(),
            0 <= j,
            level ==> j < est.rows(),
            !level ==> j < est.columns(),
            3 * end + count <= rows.nbr@.len(),
            l <= count <= 2 * branch@.len(),
            c == end_cost(*est, branch@, rows.table(), end as int, other as int, j as int, level, l as int),
            -0x1_0000_0000 * l <= c <= 0x1_0000_0000 * l,
        decreases count - l,
    {
        let n3: usize = rows.nbr[3 * end + l];
        assert(rows.table().nbr[3 * end + l] < branch@.len());
        if n3 != other {
            let (a, b) = (branch[end], branch[n3]);
            assert(branch@[end as int].n < branch@.len());
            assert(branch@[n3 as int].n < branch@.len());
            let here: i128 = if level {
                let (x1, x2) = ordered(a.x, b.x);
                let (y1, y2) = ordered(j, b.y);
                l_cost(est, x1, x2, y1, y2)
            } else {
                let (x1, x2) = ordered(j, b.x);
                let (y1, y2) = ordered(a.y, b.y);
                l_cost(est, x1, x2, y1, y2)
            };
            c = c + here;
        }
        l += 1;
    }
    c
}

fn pair_cost_of(est: &EstimateGrid, branch: &Vec<Branch>, rows: &Neighbours, n1: usize, n2: usize, j: i32, level: bool, Ghost(deg): Ghost<int>, Ghost(pins): Ghost<int>) -> (r: i128)
    requires
        shift_fits(*est, branch@, deg, pins),
        table_ok(rows.table(), branch@.len() as int, pins),
        n1 < branch@.len(),
        n2 < branch@.len(),
        n1 < 2 * pins,
        n2 < 2 * pins,
        0 <= j,
        level ==> j < est.rows(),
        !level ==> j < est.columns(),
    ensures
        r == pair_cost(*est, branch@, rows.table(), n1 as int, n2 as int, j as int, level),
        -0x4_0000_0000_0000_0000_0000_0000 <= r <= 0x4_0000_0000_0000_0000_0000_0000,
{
    assert(branch@[n1 as int].n < branch@.len());
    assert(branch@[n2 as int].n < branch@.len());
    let own: i128 = if level {
        sum_h(est, j, branch[n1].x, branch[n2].x)
    } else {
        sum_v(est, j, branch[n1].y, branch[n2].y, 0)
    };
    let c1: i128 = end_cost_of(est, branch, rows, n1, n2, j, level, Ghost(deg), Ghost(pins));
    let c2: i128 = end_cost_of(est, branch, rows, n2, n1, j, level, Ghost(deg), Ghost(pins));
    own + c1 + c2
}

fn coord_of(b: Branch, level: bool) -> (r: i32)
    ensures
        r == coord(b, level),
{
    if level { b.y } else { b.x }
}

fn span_of(branch: &Vec<Branch>, rows: &Neighbours, v: usize, level: bool, Ghost(pins): Ghost<int>) -> (r: (i32, i32))
    requires
        table_ok(rows.table(), branch@.len() as int, pins),
        v < branch@.len(),
        v < 2 * pins,
    ensures
        r.0 == span_lo(branch@, rows.table(), v as int, level),
        r.1 == span_hi(branch@, rows.table(), v as int, level),
        r.0 <= coord(branch@[v as int], level) <= r.1,
{
    assert(rows.table().nbr[3 * v] < branch@.len() && rows.table().nbr[3 * v + 1] < branch@.len() && rows.table().nbr[3 * v + 2] < branch@.len());
    let total: usize = rows.nbr.len();
    assert(3 * v + 2 < total);
    let (s0, s1, s2) = (rows.nbr[3 * v], rows.nbr[3 * v + 1], rows.nbr[3 * v + 2]);
    let (a, b) = ordered(coord_of(branch[v], level), coord_of(branch[s0], level));
    let (c, d) = ordered(coord_of(branch[s1], level), coord_of(branch[s2], level));
    (if a < c { a } else { c }, if b > d { b } else { d })
}

/// A move with its numbers.
struct Candidate {
    benefit: i128,
    n1: usize,
    n2: usize,
    pos: i32,
}

impl Candidate {
    spec fn plain(self) -> ShiftMove {
        ShiftMove { benefit: self.benefit as int, n1: self.n1 as int, n2: self.n2 as int, pos: self.pos as int }
    }
}

/// Whether a move that helps is within the grid.
spec fn move_fits(est: EstimateGrid, branch: Seq<Branch>, m: ShiftMove) -> bool {
    m.benefit > -1 ==> {
        &&& 0 <= m.n1 < branch.len()
        &&& 0 <= m.n2 < branch.len()
        &&& 0 <= m.pos
        &&& is_level(branch, m.n1, m.n2) ==> m.pos < est.rows()
        &&& !is_level(branch, m.n1, m.n2) ==> m.pos < est.columns()
    }
}

fn better_of(est: &EstimateGrid, branch: &Vec<Branch>, rows: &Neighbours, n1: usize, n2: usize, m: Candidate, Ghost(deg): Ghost<int>, Ghost(pins): Ghost<int>) -> (r: Candidate)
    requires
        shift_fits(*est, branch@, deg, pins),
        table_ok(rows.table(), branch@.len() as int, pins),
        n1 < branch@.len(),
        n2 < branch@.len(),
        n1 < 2 * pins,
        n2 < 2 * pins,
        branch@[n1 as int].y == branch@[n2 as int].y || branch@[n1 as int].x == branch@[n2 as int].x,
        m.benefit >= -1,
        move_fits(*est, branch@, m.plain()),
    ensures
        r.plain() == better(*est, branch@, rows.table(), n1 as int, n2 as int, m.plain()),
        r.benefit >= -1,
        move_fits(*est, branch@, r.plain()),
{
    let level = branch[n1].y == branch[n2].y;
    let (lo1, hi1) = span_of(branch, rows, n1, level, Ghost(pins));
    let (lo2, hi2) = span_of(branch, rows, n2, level, Ghost(pins));
    let lo: i32 = if lo1 > lo2 { lo1 } else { lo2 };
    let hi: i32 = if hi1 < hi2 { hi1 } else { hi2 };
    if lo >= hi {
        return m;
    }
    let cur: i32 = coord_of(branch[n1], level);
    proof {
        assert(branch@[n1 as int].n < branch@.len());
        assert(branch@[n2 as int].n < branch@.len());
        lemma_span_in_grid(*est, branch@, rows.table(), deg, pins, n1 as int, level);
    }
    let mut best: i128 = BIG_INT as i128;
    let mut pos: i32 = cur;
    let mut j: i64 = lo as i64;
    while j <= hi as i64
        invariant
            shift_fits(*est, branch@, deg, pins),
            table_ok(rows.table(), branch@.len() as int, pins),
            n1 < branch@.len(),
            n2 < branch@.len(),
            n1 < 2 * pins,
            n2 < 2 * pins,
            0 <= lo <= j <= hi + 1,
            lo <= cur <= hi,
            lo <= pos <= hi,
            level ==> hi < est.rows(),
            !level ==> hi < est.columns(),
            (best as int, pos as int) == best_place(*est, branch@, rows.table(), n1 as int, n2 as int, level, cur as int, lo as int, j as int),
            -0x4_0000_0000_0000_0000_0000_0000 <= best <= 0x4_0000_0000_0000_0000_0000_0000,
        decreases hi + 1 - j,
    {
        let here: i128 = pair_cost_of(est, branch, rows, n1, n2, j as i32, level, Ghost(deg), Ghost(pins));
        if here < best {
            best = here;
            pos = j as i32;
        }
        j += 1;
    }
    if pos == cur {
        return m;
    }
    let now: i128 = pair_cost_of(est, branch, rows, n1, n2, cur, level, Ghost(deg), Ghost(pins));
    let benefit: i128 = now - best;
    if benefit > m.benefit { Candidate { benefit, n1, n2, pos } } else { m }
}

proof fn lemma_span_in_grid(est: EstimateGrid, branch: Seq<Branch>, rows: ShiftTable, deg: int, pins: int, v: int, level: bool)
    requires
        shift_fits(est, branch, deg, pins),
        table_ok(rows, branch.len() as int, pins),
        0 <= v < branch.len(),
        v < 2 * pins,
    ensures
        0 <= span_lo(branch, rows, v, level),
        level ==> span_hi(branch, rows, v, level) < est.rows(),
        !level ==> span_hi(branch, rows, v, level) < est.columns(),
        span_hi(branch, rows, v, level) <= i32::MAX,
{
    assert(rows.nbr[3 * v] < branch.len() && rows.nbr[3 * v + 1] < branch.len() && rows.nbr[3 * v + 2] < branch.len());
    assert(branch[v].n < branch.len());
    assert(branch[slot(rows, v, 0)].n < branch.len());
    assert(branch[slot(rows, v, 1)].n < branch.len());
    assert(branch[slot(rows, v, 2)].n < branch.len());
}

fn best_move_of(est: &EstimateGrid, branch: &Vec<Branch>, rows: &Neighbours, deg: usize, Ghost(pins): Ghost<int>) -> (r: Candidate)
    requires
        shift_fits(*est, branch@, deg as int, pins),
        table_ok(rows.table(), branch@.len() as int, pins),
    ensures
        r.plain() == best_move(*est, branch@, rows.table(), deg as int, branch@.len() as int),
        move_fits(*est, branch@, r.plain()),
{
    let mut m = Candidate { benefit: -1, n1: 0, n2: 0, pos: 0 };
    let mut i: usize = deg;
    while i < branch.len()
        invariant
            deg <= i,
            i <= branch@.len() || i == deg,
            shift_fits(*est, branch@, deg as int, pins),
            table_ok(rows.table(), branch@.len() as int, pins),
            m.plain() == best_move(*est, branch@, rows.table(), deg as int, i as int),
            m.benefit >= -1,
            move_fits(*est, branch@, m.plain()),
        decreases branch@.len() - i,
    {
        let a = branch[i];
        assert(branch@[i as int].n < branch@.len());
        let n: usize = a.n;
        let b = branch[n];
        if a.x == b.x {
            if a.y < b.y {
                m = better_of(est, branch, rows, i, n, m, Ghost(deg as int), Ghost(pins));
            } else if a.y > b.y {
                m = better_of(est, branch, rows, n, i, m, Ghost(deg as int), Ghost(pins));
            }
        } else if a.y == b.y {
            if a.x < b.x {
                m = better_of(est, branch, rows, i, n, m, Ghost(deg as int), Ghost(pins));
            } else {
                m = better_of(est, branch, rows, n, i, m, Ghost(deg as int), Ghost(pins));
            }
        }
        i += 1;
    }
    proof {
        if deg > branch@.len() {
            assert(best_move(*est, branch@, rows.table(), deg as int, branch@.len() as int) == best_move(*est, branch@, rows.table(), deg as int, i as int));
        }
    }
    m
}

/// The table of a tree's neighbours.
fn table_of(branch: &Vec<Branch>, deg: usize, pins: usize, Ghost(est): Ghost<EstimateGrid>) -> (rows: Neighbours)
    requires
        shift_fits(est, branch@, deg as int, pins as int),
    ensures
        rows.table() == shift_table(branch@, deg as int, pins as int),
        branch@.len() > 0 ==> table_ok(rows.table(), branch@.len() as int, pins as int),
{
    let n: usize = branch.len();
    let mut root: usize = 0;
    let mut i: usize = deg;
    let mut found_root = false;
    while i < n && !found_root
        invariant
            deg <= i,
            n == branch@.len(),
            found_root ==> root == root_from(branch@, deg as int),
            !found_root ==> root == 0 && root_from(branch@, i as int) == root_from(branch@, deg as int),
        decreases (if found_root { 0 } else { n - i + 1 }),
    {
        if branch[i].n == i {
            root = i;
            found_root = true;
        } else {
            i += 1;
        }
    }
    assert(root == root_from(branch@, deg as int));
    let mut rows = Neighbours { nbr: crate::vecs::filled(0usize, 6 * pins), cnt: crate::vecs::filled(0usize, 2 * pins) };
    assert(rows.table() =~= table_upto(branch@, deg as int, root as int, 2 * pins, 0));
    i = 0;
    while i < n
        invariant
            i <= n == branch@.len(),
            shift_fits(est, branch@, deg as int, pins as int),
            root == root_from(branch@, deg as int),
            rows.table() == table_upto(branch@, deg as int, root as int, 2 * pins, i as int),
            rows.nbr@.len() == 6 * pins,
            rows.cnt@.len() == 2 * pins,
            forall|v: int| 0 <= v < rows.cnt@.len() ==> 3 * v + (#[trigger] rows.cnt@[v]) <= rows.nbr@.len() && rows.cnt@[v] <= 2 * i,
            n > 0 ==> forall|k: int| 0 <= k < rows.nbr@.len() ==> (#[trigger] rows.nbr@[k]) < n,
        decreases n - i,
    {
        let p: usize = branch[i].n;
        assert(branch@[i as int].n < branch@.len());
        assert(has_room(branch@, deg as int, root as int, 2 * pins, i as int));
        if i < deg {
            rows.enter(p, i);
        } else if i != root {
            rows.enter(i, p);
            rows.enter(p, i);
        }
        i += 1;
    }
    rows
}

proof fn lemma_move_keeps(est: EstimateGrid, branch: Seq<Branch>, deg: int, pins: int, m: ShiftMove)
    requires
        shift_fits(est, branch, deg, pins),
        move_fits(est, branch, m),
        m.benefit > 0,
        m.pos <= i32::MAX,
        deg >= 0,
    ensures
        shift_fits(est, moved(branch, m), deg, pins),
        moved(branch, m).len() == branch.len(),
        forall|i: int| 0 <= i < branch.len() ==> (#[trigger] moved(branch, m)[i]).n == branch[i].n,
{
    assert forall|i: int| 0 <= i < branch.len() implies {
        &&& (#[trigger] moved(branch, m)[i]).n == branch[i].n
        &&& 0 <= moved(branch, m)[i].x < est.columns()
        &&& 0 <= moved(branch, m)[i].y < est.rows()
    } by {
        assert(branch[i].n < branch.len());
        assert(branch[m.n1].n < branch.len());
        assert(branch[m.n2].n < branch.len());
    }
    let (b, root, size) = (moved(branch, m), root_from(branch, deg), 2 * pins);
    lemma_same_root(branch, b, deg);
    assert forall|i: int| 0 <= i < b.len() implies #[trigger] has_room(b, deg, root_from(b, deg), size, i) by {
        assert(has_room(branch, deg, root, size, i));
        lemma_same_table(branch, b, deg, root, size, i);
        assert(b[i].n == branch[i].n);
    }
}

/// Shifts a tree's edges while a shift helps.
fn shift_edges(t: &mut RsmtTree, pins: usize, est: &EstimateGrid) -> (num_shift: i32)
    requires
        shift_fits(*est, old(t).branch@, old(t).deg as int, pins as int),
    ensures
        final(t).deg == old(t).deg,
        final(t).length == old(t).length,
        final(t).branch@ == edges_shifted(*est, old(t).branch@, old(t).deg as int, pins as int).0,
        num_shift == edges_shifted(*est, old(t).branch@, old(t).deg as int, pins as int).1,
        num_shift >= 0,
        shift_fits(*est, final(t).branch@, old(t).deg as int, pins as int),
        final(t).branch@.len() == old(t).branch@.len(),
{
    let deg: usize = t.deg;
    let rows = table_of(&t.branch, deg, pins, Ghost(*est));
    let ghost b0 = t.branch@;
    let ghost rv = rows.table();
    if t.branch.len() == 0 {
        return 0;
    }
    let mut num_shift: i32 = 0;
    let mut more = true;
    while more && num_shift < i32::MAX
        invariant
            t.deg == deg == old(t).deg,
            t.length == old(t).length,
            rv == rows.table(),
            table_ok(rv, b0.len() as int, pins as int),
            t.branch@.len() == b0.len(),
            shift_fits(*est, t.branch@, deg as int, pins as int),
            0 <= num_shift <= i32::MAX,
            more ==> shift_run(*est, b0, rv, deg as int, i32::MAX as nat) == ({
                let (b, c) = shift_run(*est, t.branch@, rv, deg as int, (i32::MAX - num_shift) as nat);
                (b, c + num_shift)
            }),
            !more ==> shift_run(*est, b0, rv, deg as int, i32::MAX as nat) == (t.branch@, num_shift as int),
        decreases (if more { i32::MAX - num_shift + 1 } else { 0 }),
    {
        let m = best_move_of(est, &t.branch, &rows, deg, Ghost(pins as int));
        if m.benefit > 0 {
            let ghost b1 = t.branch@;
            let (n1, n2) = (m.n1, m.n2);
            if t.branch[n1].y == t.branch[n2].y {
                t.branch[n1].y = m.pos;
                t.branch[n2].y = m.pos;
            } else {
                t.branch[n1].x = m.pos;
                t.branch[n2].x = m.pos;
            }
            proof {
                assert(t.branch@ =~= moved(b1, m.plain()));
                lemma_move_keeps(*est, b1, deg as int, pins as int, m.plain());
            }
            num_shift += 1;
        } else {
            more = false;
        }
    }
    num_shift
}

/// Slides level and upright edges between Steiner nodes to the row or the column of least demand,
/// one best move at a time, while a move helps.
///
/// A move's place lies in the band that the neighbours of both ends span. Demands are added one by
/// one, and the fraction of each sum dropped. Of places with equal cost the lowest counts, and of
/// moves that help equally the first. The neighbours are kept in a table of three slots for each of
/// twice as many nodes as the net has pins.
pub fn edge_shift(t: &mut RsmtTree, num_pins: usize, est: &EstimateGrid) -> (num_shift: i32)
    requires
        shift_fits(*est, old(t).branch@, old(t).deg as int, num_pins as int),
    ensures
        final(t).deg == old(t).deg,
        final(t).length == old(t).length,
        final(t).branch@ == edges_shifted(*est, old(t).branch@, old(t).deg as int, num_pins as int).0,
        num_shift == edges_shifted(*est, old(t).branch@, old(t).deg as int, num_pins as int).1,
        shift_fits(*est, final(t).branch@, old(t).deg as int, num_pins as int),
{
    shift_edges(t, num_pins, est)
}

// ---- what a shift leaves ----

/// Whether a place lies between two of a node and the nodes in its slots.
pub open spec fn within_reach(branch: Seq<Branch>, t: ShiftTable, v: int, level: bool, j: int) -> bool {
    &&& coord(branch[v], level) <= j || exists|k: int| 0 <= k < 3 && coord(branch[#[trigger] slot(t, v, k)], level) <= j
    &&& j <= coord(branch[v], level) || exists|k: int| 0 <= k < 3 && j <= coord(branch[#[trigger] slot(t, v, k)], level)
}

/// What the edge of a node and its parent costs at a place: the demand along itself there, and along the cheaper L
/// from each end to every other neighbour of it.
pub open spec fn edge_cost(est: EstimateGrid, branch: Seq<Branch>, t: ShiftTable, i: int, j: int, level: bool) -> int {
    let n = branch[i].n as int;
    let (a, b) = (branch[i], branch[n]);
    (if level {
        run_h(est, j, least(a.x as int, b.x as int), most(a.x as int, b.x as int), 0)
    } else {
        run_v(est, j, least(a.y as int, b.y as int), most(a.y as int, b.y as int), 0)
    }) + end_cost(est, branch, t, i, n, j, level, t.cnt[i] as int) + end_cost(est, branch, t, n, i, j, level, t.cnt[n] as int)
}

proof fn lemma_best_place(est: EstimateGrid, branch: Seq<Branch>, rows: ShiftTable, n1: int, n2: int, level: bool, cur: int, lo: int, hi: int, j: int)
    requires
        lo <= j < hi,
    ensures
        best_place(est, branch, rows, n1, n2, level, cur, lo, hi).0 <= pair_cost(est, branch, rows, n1, n2, j, level),
    decreases hi - lo,
{
    if j < hi - 1 {
        lemma_best_place(est, branch, rows, n1, n2, level, cur, lo, hi - 1, j);
    }
}

proof fn lemma_place_has_cost(est: EstimateGrid, branch: Seq<Branch>, rows: ShiftTable, n1: int, n2: int, level: bool, cur: int, lo: int, hi: int)
    ensures
        ({
            let (c, p) = best_place(est, branch, rows, n1, n2, level, cur, lo, hi);
            c <= BIG_INT && ((c == BIG_INT && p == cur) || (lo <= p < hi && c == pair_cost(est, branch, rows, n1, n2, p, level)))
        }),
    decreases hi - lo,
{
    if lo < hi {
        lemma_place_has_cost(est, branch, rows, n1, n2, level, cur, lo, hi - 1);
    }
}

/// The best move helps at least as much as shifting any straight edge to any place of its band.
proof fn lemma_best_move(est: EstimateGrid, branch: Seq<Branch>, rows: ShiftTable, deg: int, m: int, i: int, j: int)
    requires
        deg <= i < m,
        straight_pair(branch, i) is Some,
        ({
            let (n1, n2) = straight_pair(branch, i)->0;
            let (lo, hi) = band(branch, rows, n1, n2);
            lo <= j <= hi && lo <= coord(branch[n1], is_level(branch, n1, n2)) <= hi
        }),
    ensures
        ({
            let (n1, n2) = straight_pair(branch, i)->0;
            let level = is_level(branch, n1, n2);
            let now = pair_cost(est, branch, rows, n1, n2, coord(branch[n1], level), level);
            let there = pair_cost(est, branch, rows, n1, n2, j, level);
            there < BIG_INT && there < now ==> best_move(est, branch, rows, deg, m).benefit >= now - there
        }),
        best_move(est, branch, rows, deg, m).benefit >= -1,
    decreases m - deg,
{
    let (n1, n2) = straight_pair(branch, i)->0;
    let level = is_level(branch, n1, n2);
    let cur = coord(branch[n1], level);
    if i < m - 1 {
        lemma_best_move(est, branch, rows, deg, m - 1, i, j);
    } else {
        let (lo, hi) = band(branch, rows, n1, n2);
        let now = pair_cost(est, branch, rows, n1, n2, cur, level);
        let there = pair_cost(est, branch, rows, n1, n2, j, level);
        lemma_best_place(est, branch, rows, n1, n2, level, cur, lo, hi + 1, j);
        lemma_place_has_cost(est, branch, rows, n1, n2, level, cur, lo, hi + 1);
        lemma_benefit(est, branch, rows, deg, m - 1);
    }
}

proof fn lemma_benefit(est: EstimateGrid, branch: Seq<Branch>, rows: ShiftTable, deg: int, m: int)
    ensures
        best_move(est, branch, rows, deg, m).benefit >= -1,
    decreases m - deg,
{
    if m > deg {
        lemma_benefit(est, branch, rows, deg, m - 1);
    }
}

proof fn lemma_place_in_band(est: EstimateGrid, branch: Seq<Branch>, rows: ShiftTable, n1: int, n2: int, level: bool, cur: int, lo: int, hi: int)
    requires
        lo <= hi,
    ensures
        ({
            let p = best_place(est, branch, rows, n1, n2, level, cur, lo, hi).1;
            p == cur || lo <= p < hi
        }),
    decreases hi - lo,
{
    if lo < hi {
        lemma_place_in_band(est, branch, rows, n1, n2, level, cur, lo, hi - 1);
    }
}

/// The ends of a straight edge of a Steiner node are nodes that the table knows, and its band holds its place.
proof fn lemma_pair(est: EstimateGrid, branch: Seq<Branch>, rows: ShiftTable, deg: int, pins: int, i: int)
    requires
        shift_fits(est, branch, deg, pins),
        table_ok(rows, branch.len() as int, pins),
        0 <= deg <= i < branch.len(),
        straight_pair(branch, i) is Some,
    ensures
        ({
            let (n1, n2) = straight_pair(branch, i)->0;
            let level = is_level(branch, n1, n2);
            let (lo, hi) = band(branch, rows, n1, n2);
            &&& 0 <= n1 < branch.len() && n1 < 2 * pins
            &&& 0 <= n2 < branch.len() && n2 < 2 * pins
            &&& coord(branch[n1], level) == coord(branch[n2], level)
            &&& 0 <= lo <= coord(branch[n1], level) <= hi <= i32::MAX
            &&& level ==> hi < est.rows()
            &&& !level ==> hi < est.columns()
        }),
{
    let (n1, n2) = straight_pair(branch, i)->0;
    let level = is_level(branch, n1, n2);
    assert(branch[i].n < branch.len());
    lemma_span_in_grid(est, branch, rows, deg, pins, n1, level);
    lemma_span_in_grid(est, branch, rows, deg, pins, n2, level);
}

proof fn lemma_move_in_grid(est: EstimateGrid, branch: Seq<Branch>, rows: ShiftTable, deg: int, pins: int, m: int)
    requires
        shift_fits(est, branch, deg, pins),
        table_ok(rows, branch.len() as int, pins),
        0 <= deg,
        m <= branch.len(),
    ensures
        move_fits(est, branch, best_move(est, branch, rows, deg, m)),
        best_move(est, branch, rows, deg, m).benefit >= -1,
        best_move(est, branch, rows, deg, m).benefit > -1 ==> best_move(est, branch, rows, deg, m).pos <= i32::MAX,
    decreases m - deg,
{
    if m > deg {
        lemma_move_in_grid(est, branch, rows, deg, pins, m - 1);
        if let Some((n1, n2)) = straight_pair(branch, m - 1) {
            lemma_pair(est, branch, rows, deg, pins, m - 1);
            let level = is_level(branch, n1, n2);
            let (lo, hi) = band(branch, rows, n1, n2);
            lemma_place_in_band(est, branch, rows, n1, n2, level, coord(branch[n1], level), lo, hi + 1);
        }
    }
}

/// A run that does not stop for want of fuel ends where no move helps, with the links as they were.
proof fn lemma_run_ends(est: EstimateGrid, branch: Seq<Branch>, rows: ShiftTable, deg: int, pins: int, fuel: nat)
    requires
        shift_fits(est, branch, deg, pins),
        table_ok(rows, branch.len() as int, pins),
        0 <= deg,
    ensures
        ({
            let (b, c) = shift_run(est, branch, rows, deg, fuel);
            &&& 0 <= c <= fuel
            &&& c < fuel ==> best_move(est, b, rows, deg, b.len() as int).benefit <= 0
            &&& shift_fits(est, b, deg, pins)
            &&& same_links(branch, b)
        }),
    decreases fuel,
{
    let m = best_move(est, branch, rows, deg, branch.len() as int);
    if fuel > 0 && m.benefit > 0 {
        lemma_move_in_grid(est, branch, rows, deg, pins, branch.len() as int);
        lemma_move_keeps(est, branch, deg, pins, m);
        let b1 = moved(branch, m);
        lemma_run_ends(est, b1, rows, deg, pins, (fuel - 1) as nat);
        let b = shift_run(est, b1, rows, deg, (fuel - 1) as nat).0;
        assert forall|i: int| 0 <= i < branch.len() implies (#[trigger] branch[i]).n == b[i].n by {
            assert(b1[i].n == branch[i].n);
        }
    }
}

proof fn lemma_table_ok(est: EstimateGrid, branch: Seq<Branch>, deg: int, pins: int, n: int)
    requires
        shift_fits(est, branch, deg, pins),
        0 <= n <= branch.len(),
        branch.len() > 0,
        0 <= deg,
        0 <= pins,
    ensures
        ({
            let t = table_upto(branch, deg, root_from(branch, deg), 2 * pins, n);
            &&& t.cnt.len() == 2 * pins
            &&& t.nbr.len() == 6 * pins
            &&& forall|v: int| 0 <= v < t.cnt.len() ==> 3 * v + (#[trigger] t.cnt[v]) <= t.nbr.len() && t.cnt[v] <= 2 * n
            &&& forall|k: int| 0 <= k < t.nbr.len() ==> (#[trigger] t.nbr[k]) < branch.len()
        }),
    decreases n,
{
    if n > 0 {
        lemma_table_ok(est, branch, deg, pins, n - 1);
        assert(branch[n - 1].n < branch.len());
        assert(has_room(branch, deg, root_from(branch, deg), 2 * pins, n - 1));
    }
}

/// When the shifting ends, no edge between a Steiner node and its parent, be it level or upright, has a place within
/// reach of both its ends that costs less than the place where it stands.
pub proof fn no_straight_edge_is_left_to_shift(est: EstimateGrid, branch: Seq<Branch>, deg: int, pins: int, i: int, j: int)
    requires
        shift_fits(est, branch, deg, pins),
        0 <= deg <= i < branch.len(),
        0 <= pins,
        edges_shifted(est, branch, deg, pins).1 < i32::MAX,
    ensures
        ({
            let b = edges_shifted(est, branch, deg, pins).0;
            let t = shift_table(b, deg, pins);
            let n = b[i].n as int;
            &&& b[i].y == b[n].y && b[i].x != b[n].x && within_reach(b, t, i, true, j) && within_reach(b, t, n, true, j) && edge_cost(est, b, t, i, j, true) < BIG_INT
                ==> edge_cost(est, b, t, i, b[i].y as int, true) <= edge_cost(est, b, t, i, j, true)
            &&& b[i].x == b[n].x && b[i].y != b[n].y && within_reach(b, t, i, false, j) && within_reach(b, t, n, false, j) && edge_cost(est, b, t, i, j, false) < BIG_INT
                ==> edge_cost(est, b, t, i, b[i].x as int, false) <= edge_cost(est, b, t, i, j, false)
        }),
{
    let rows = shift_table(branch, deg, pins);
    lemma_table_ok(est, branch, deg, pins, branch.len() as int);
    assert(table_ok(rows, branch.len() as int, pins));
    lemma_run_ends(est, branch, rows, deg, pins, i32::MAX as nat);
    let b = edges_shifted(est, branch, deg, pins).0;
    lemma_same_root(branch, b, deg);
    lemma_same_table(branch, b, deg, root_from(branch, deg), 2 * pins, branch.len() as int);
    assert(shift_table(b, deg, pins) == rows);
    let n = b[i].n as int;
    assert(b[i].n < b.len());
    if straight_pair(b, i) is Some {
        let (n1, n2) = straight_pair(b, i)->0;
        let level = is_level(b, n1, n2);
        lemma_pair(est, b, rows, deg, pins, i);
        if within_reach(b, rows, i, level, j) && within_reach(b, rows, n, level, j) {
            lemma_reach_is_span(b, rows, i, level, j);
            lemma_reach_is_span(b, rows, n, level, j);
            lemma_best_move(est, b, rows, deg, b.len() as int, i, j);
        }
    }
}

proof fn lemma_reach_is_span(branch: Seq<Branch>, t: ShiftTable, v: int, level: bool, j: int)
    requires
        within_reach(branch, t, v, level, j),
    ensures
        span_lo(branch, t, v, level) <= j <= span_hi(branch, t, v, level),
{
    if coord(branch[v], level) > j {
        let k = choose|k: int| 0 <= k < 3 && coord(branch[#[trigger] slot(t, v, k)], level) <= j;
        assert(k == 0 || k == 1 || k == 2);
    }
    if coord(branch[v], level) < j {
        let k = choose|k: int| 0 <= k < 3 && j <= coord(branch[#[trigger] slot(t, v, k)], level);
        assert(k == 0 || k == 1 || k == 2);
    }
}

// ---- pairing coincident nodes anew ----

/// Whether Steiner node `i` lies on its parent, and neither is a root.
pub open spec fn lies_on_parent(branch: Seq<Branch>, i: int) -> bool {
    let n = branch[i].n as int;
    n != i && n != branch[n].n && branch[i].x == branch[n].x && branch[i].y == branch[n].y
}

/// The Steiner nodes from `deg` up to `i` that lie on their parents.
pub open spec fn stacked(branch: Seq<Branch>, deg: int, i: int) -> Seq<(usize, usize)>
    decreases i - deg,
{
    if i <= deg {
        Seq::empty()
    } else {
        let s = stacked(branch, deg, i - 1);
        if lies_on_parent(branch, i - 1) { s.push(((i - 1) as usize, branch[i - 1].n)) } else { s }
    }
}

/// The pair that a round takes: the first, or the second where the first is the one of the round
/// before.
pub open spec fn taken(pairs: Seq<(usize, usize)>, before: Option<(usize, usize)>) -> Option<(usize, usize)> {
    if before != Some(pairs[0]) {
        Some(pairs[0])
    } else if pairs.len() > 1 {
        Some(pairs[1])
    } else {
        None
    }
}

/// Whether `a` lies straight beside `b`, on its row (`level`) or on its column.
pub open spec fn beside(a: Branch, b: Branch, level: bool) -> bool {
    if level { a.y == b.y && a.x != b.x } else { a.x == b.x && a.y != b.y }
}

/// The last of the first `j` children of `p` that lies beside it.
pub open spec fn last_child(branch: Seq<Branch>, p: int, level: bool, j: int) -> Option<usize>
    decreases j,
{
    if j <= 0 {
        None
    } else if branch[j - 1].n == p && beside(branch[j - 1], branch[p], level) {
        Some((j - 1) as usize)
    } else {
        last_child(branch, p, level, j - 1)
    }
}

/// What lies beside the upper node of a pair: its parent, else its last child that does.
pub open spec fn upper_neighbour(branch: Seq<Branch>, p: int, level: bool) -> Option<usize> {
    let n = branch[p].n;
    if beside(branch[n as int], branch[p], level) { Some(n) } else { last_child(branch, p, level, branch.len() as int) }
}

/// A tree where the child `a` of `p1` hangs on `p2` instead, and the neighbour `b` of `p2` on `p1`.
pub open spec fn exchanged(branch: Seq<Branch>, p1: int, p2: int, a: int, b: int) -> Seq<Branch> {
    if b == branch[p2].n {
        let s = branch.update(a, Branch { n: p2 as usize, ..branch[a] });
        let s = s.update(p1, Branch { n: b as usize, ..s[p1] });
        s.update(p2, Branch { n: p1 as usize, ..s[p2] })
    } else {
        let s = branch.update(a, Branch { n: p2 as usize, ..branch[a] });
        s.update(b, Branch { n: p1 as usize, ..s[b] })
    }
}

/// A tree with the neighbours of a pair exchanged: those on its row, else those on its column; nothing
/// where neither side has both.
pub open spec fn repaired(branch: Seq<Branch>, p1: int, p2: int) -> Option<Seq<Branch>> {
    let len = branch.len() as int;
    match (last_child(branch, p1, true, len), upper_neighbour(branch, p2, true)) {
        (Some(a), Some(b)) => Some(exchanged(branch, p1, p2, a as int, b as int)),
        _ => match (last_child(branch, p1, false, len), upper_neighbour(branch, p2, false)) {
            (Some(a), Some(b)) => Some(exchanged(branch, p1, p2, a as int, b as int)),
            _ => None,
        },
    }
}

/// A tree after `left` rounds more, and the number of shifts. A round without a pair ends them.
pub open spec fn rounds(est: EstimateGrid, branch: Seq<Branch>, deg: int, pins: int, before: Option<(usize, usize)>, left: nat) -> (Seq<Branch>, int)
    decreases left,
{
    let pairs = stacked(branch, deg, branch.len() as int);
    if left == 0 || pairs.len() == 0 {
        (branch, 0)
    } else {
        match taken(pairs, before) {
            None => rounds(est, branch, deg, pins, before, (left - 1) as nat),
            Some(p) => match repaired(branch, p.0 as int, p.1 as int) {
                None => rounds(est, branch, deg, pins, Some(p), (left - 1) as nat),
                Some(b) => {
                    let (b2, c2) = edges_shifted(est, b, deg, pins);
                    let (b3, c3) = rounds(est, b2, deg, pins, Some(p), (left - 1) as nat);
                    (b3, c2 + c3)
                },
            },
        }
    }
}

/// Whether every tree that `left` rounds more shift can be shifted.
pub open spec fn rounds_fit(est: EstimateGrid, branch: Seq<Branch>, deg: int, pins: int, before: Option<(usize, usize)>, left: nat) -> bool
    decreases left,
{
    let pairs = stacked(branch, deg, branch.len() as int);
    if left == 0 || pairs.len() == 0 {
        true
    } else {
        match taken(pairs, before) {
            None => rounds_fit(est, branch, deg, pins, before, (left - 1) as nat),
            Some(p) => match repaired(branch, p.0 as int, p.1 as int) {
                None => rounds_fit(est, branch, deg, pins, Some(p), (left - 1) as nat),
                Some(b) => shift_fits(est, b, deg, pins) && rounds_fit(est, edges_shifted(est, b, deg, pins).0, deg, pins, Some(p), (left - 1) as nat),
            },
        }
    }
}

/// A tree with its edges shifted, then after the rounds, and the number of shifts.
pub open spec fn shifted_anew(est: EstimateGrid, branch: Seq<Branch>, deg: int, pins: int) -> (Seq<Branch>, int) {
    let (b1, c1) = edges_shifted(est, branch, deg, pins);
    let (b2, c2) = rounds(est, b1, deg, pins, None, 3);
    (b2, c1 + c2)
}

fn is_beside(a: Branch, b: Branch, level: bool) -> (r: bool)
    ensures
        r == beside(a, b, level),
{
    if level { a.y == b.y && a.x != b.x } else { a.x == b.x && a.y != b.y }
}

fn last_child_of(branch: &Vec<Branch>, p: usize, level: bool) -> (r: Option<usize>)
    requires
        p < branch@.len(),
    ensures
        r == last_child(branch@, p as int, level, branch@.len() as int),
        r matches Some(a) ==> a < branch@.len() && branch@[a as int].n == p && beside(branch@[a as int], branch@[p as int], level),
{
    let mut j: usize = branch.len();
    while j > 0
        invariant
            j <= branch@.len(),
            p < branch@.len(),
            last_child(branch@, p as int, level, j as int) == last_child(branch@, p as int, level, branch@.len() as int),
        decreases j,
    {
        if branch[j - 1].n == p && is_beside(branch[j - 1], branch[p], level) {
            return Some(j - 1);
        }
        j -= 1;
    }
    None
}

fn upper_neighbour_of(branch: &Vec<Branch>, p: usize, level: bool) -> (r: Option<usize>)
    requires
        p < branch@.len(),
        branch@[p as int].n < branch@.len(),
    ensures
        r == upper_neighbour(branch@, p as int, level),
        r matches Some(b) ==> b < branch@.len() && beside(branch@[b as int], branch@[p as int], level),
{
    let n: usize = branch[p].n;
    if is_beside(branch[n], branch[p], level) { Some(n) } else { last_child_of(branch, p, level) }
}

fn exchange(t: &mut RsmtTree, p1: usize, p2: usize, a: usize, b: usize)
    requires
        p1 < old(t).branch@.len(),
        p2 < old(t).branch@.len(),
        a < old(t).branch@.len(),
        b < old(t).branch@.len(),
    ensures
        final(t).deg == old(t).deg,
        final(t).length == old(t).length,
        final(t).branch@ == exchanged(old(t).branch@, p1 as int, p2 as int, a as int, b as int),
{
    let ghost b0 = t.branch@;
    if b == t.branch[p2].n {
        t.branch[a].n = p2;
        t.branch[p1].n = b;
        t.branch[p2].n = p1;
    } else {
        t.branch[a].n = p2;
        t.branch[b].n = p1;
    }
    assert(t.branch@ =~= exchanged(b0, p1 as int, p2 as int, a as int, b as int));
}

fn stacked_of(branch: &Vec<Branch>, deg: usize) -> (r: Vec<(usize, usize)>)
    requires
        forall|i: int| 0 <= i < branch@.len() ==> (#[trigger] branch@[i]).n < branch@.len(),
    ensures
        r@ == stacked(branch@, deg as int, branch@.len() as int),
        forall|k: int| 0 <= k < r@.len() ==> (#[trigger] r@[k]).0 < branch@.len() && r@[k].1 < branch@.len(),
{
    let mut r: Vec<(usize, usize)> = Vec::new();
    let mut i: usize = deg;
    while i < branch.len()
        invariant
            deg <= i,
            i <= branch@.len() || i == deg,
            forall|i: int| 0 <= i < branch@.len() ==> (#[trigger] branch@[i]).n < branch@.len(),
            r@ == stacked(branch@, deg as int, i as int),
            forall|k: int| 0 <= k < r@.len() ==> (#[trigger] r@[k]).0 < branch@.len() && r@[k].1 < branch@.len(),
        decreases branch@.len() - i,
    {
        let a = branch[i];
        assert(branch@[i as int].n < branch@.len());
        let b = branch[a.n];
        if a.n != i && a.n != b.n && a.x == b.x && a.y == b.y {
            r.push((i, a.n));
        }
        i += 1;
    }
    r
}

fn run_rounds(t: &mut RsmtTree, pins: usize, est: &EstimateGrid, before: Option<(usize, usize)>, left: u32) -> (num_shift: i64)
    requires
        shift_fits(*est, old(t).branch@, old(t).deg as int, pins as int),
        rounds_fit(*est, old(t).branch@, old(t).deg as int, pins as int, before, left as nat),
        left <= 3,
    ensures
        final(t).deg == old(t).deg,
        final(t).length == old(t).length,
        final(t).branch@ == rounds(*est, old(t).branch@, old(t).deg as int, pins as int, before, left as nat).0,
        num_shift == rounds(*est, old(t).branch@, old(t).deg as int, pins as int, before, left as nat).1,
        0 <= num_shift <= 0x8000_0000 * left,
        shift_fits(*est, final(t).branch@, old(t).deg as int, pins as int),
    decreases left,
{
    if left == 0 {
        return 0;
    }
    let deg: usize = t.deg;
    assert forall|i: int| 0 <= i < t.branch@.len() implies (#[trigger] t.branch@[i]).n < t.branch@.len() by {}
    let pairs = stacked_of(&t.branch, deg);
    if pairs.len() == 0 {
        return 0;
    }
    let first = pairs[0];
    let again = match before {
        Some(p) => p.0 == first.0 && p.1 == first.1,
        None => false,
    };
    assert(again == (before == Some(pairs@[0])));
    if again && pairs.len() <= 1 {
        return run_rounds(t, pins, est, before, left - 1);
    }
    let p = if again { pairs[1] } else { first };
    let (p1, p2) = p;
    assert(t.branch@[p2 as int].n < t.branch@.len());
    let row_a = last_child_of(&t.branch, p1, true);
    let row_b = upper_neighbour_of(&t.branch, p2, true);
    let column_a = last_child_of(&t.branch, p1, false);
    let column_b = upper_neighbour_of(&t.branch, p2, false);
    let pick = match (row_a, row_b) {
        (Some(a), Some(b)) => Some((a, b)),
        _ => match (column_a, column_b) {
            (Some(a), Some(b)) => Some((a, b)),
            _ => None,
        },
    };
    match pick {
        None => run_rounds(t, pins, est, Some(p), left - 1),
        Some((a, b)) => {
            exchange(t, p1, p2, a, b);
            let c2: i32 = shift_edges(t, pins, est);
            let c3: i64 = run_rounds(t, pins, est, Some(p), left - 1);
            c2 as i64 + c3
        },
    }
}

/// Shifts a tree's edges, then up to three times pairs coincident Steiner nodes anew and shifts again.
///
/// A round without a coincident pair ends them. A round whose first pair is that of the round before
/// takes the second instead, or does nothing where there is none.
pub fn edge_shift_new(t: &mut RsmtTree, num_pins: usize, est: &EstimateGrid) -> (num_shift: i64)
    requires
        shift_fits(*est, old(t).branch@, old(t).deg as int, num_pins as int),
        rounds_fit(*est, edges_shifted(*est, old(t).branch@, old(t).deg as int, num_pins as int).0, old(t).deg as int, num_pins as int, None, 3),
    ensures
        final(t).deg == old(t).deg,
        final(t).length == old(t).length,
        final(t).branch@ == shifted_anew(*est, old(t).branch@, old(t).deg as int, num_pins as int).0,
        num_shift == shifted_anew(*est, old(t).branch@, old(t).deg as int, num_pins as int).1,
        shift_fits(*est, final(t).branch@, old(t).deg as int, num_pins as int),
{
    let c1: i32 = shift_edges(t, num_pins, est);
    let c2: i64 = run_rounds(t, num_pins, est, None, 3);
    c1 as i64 + c2
}

// ---- the demand that stretches a gap ----

/// The demand and the blockage of a horizontal edge, in halves.
pub open spec fn loaded_h(est: EstimateGrid, red: Seq<u16>, x: int, y: int) -> int {
    est.eh(x, y) + 2 * red[at2(x, y, est.columns())]
}

/// The demand and the blockage of a vertical edge, in halves.
pub open spec fn loaded_v(est: EstimateGrid, red: Seq<u16>, x: int, y: int) -> int {
    est.ev(x, y) + 2 * red[at2(x, y, est.columns())]
}

/// The load of a row from column `a` up to `b`, added to a sum.
pub open spec fn row_load(est: EstimateGrid, red: Seq<u16>, y: int, a: int, b: int, acc: int) -> int
    decreases b - a,
{
    if b <= a { acc } else { plus_half(row_load(est, red, y, a, b - 1, acc), loaded_h(est, red, b - 1, y)) }
}

/// The load of the vertical edges that leave a row, from column `a` up to `b`, added to a sum.
pub open spec fn rise_load(est: EstimateGrid, red: Seq<u16>, y: int, a: int, b: int, acc: int) -> int
    decreases b - a,
{
    if b <= a { acc } else { plus_half(rise_load(est, red, y, a, b - 1, acc), loaded_v(est, red, b - 1, y)) }
}

/// The load of the horizontal edges from column `x1` up to `x2`, over the rows from `y1` up to `y2`.
pub open spec fn gap_load_h(est: EstimateGrid, red: Seq<u16>, x1: int, x2: int, y1: int, y2: int) -> int
    decreases y2 - y1,
{
    if y2 <= y1 { 0 } else { row_load(est, red, y2 - 1, x1, x2, gap_load_h(est, red, x1, x2, y1, y2 - 1)) }
}

/// The load of the vertical edges from row `y1` up to `y2`, over the columns from `x1` up to `x2`.
pub open spec fn gap_load_v(est: EstimateGrid, red: Seq<u16>, x1: int, x2: int, y1: int, y2: int) -> int
    decreases y2 - y1,
{
    if y2 <= y1 { 0 } else { rise_load(est, red, y2 - 1, x1, x2, gap_load_v(est, red, x1, x2, y1, y2 - 1)) }
}

/// The load of the horizontal edges of a gap between two columns, over the rows of a net: what
/// stretches the gap.
pub fn gap_usage_h(est: &EstimateGrid, red: &Vec<u16>, x1: i32, x2: i32, ymin: i32, ymax: i32) -> (r: i32)
    requires
        est.wf(),
        est.within(SHIFT_ROOM as int),
        red@.len() == est.rows() * est.columns(),
        0 <= x1 <= x2 < est.columns(),
        0 <= ymin <= ymax < est.rows(),
    ensures
        r == gap_load_h(*est, red@, x1 as int, x2 as int, ymin as int, ymax + 1),
{
    let mut acc: i128 = 0;
    let total: usize = red.len();
    let mut k: i64 = ymin as i64;
    while k <= ymax as i64
        invariant
            est.wf(),
            est.within(SHIFT_ROOM as int),
            total == red@.len() == est.rows() * est.columns(),
            0 <= x1 <= x2 < est.columns(),
            0 <= ymin <= k <= ymax + 1,
            ymax < est.rows(),
            acc == gap_load_h(*est, red@, x1 as int, x2 as int, ymin as int, k as int),
            -0x8000_0000 <= acc <= 0x7fff_ffff,
        decreases ymax + 1 - k,
    {
        let ghost acc0 = acc;
        let mut j: i32 = x1;
        while j < x2
            invariant
                est.wf(),
                est.within(SHIFT_ROOM as int),
                total == red@.len() == est.rows() * est.columns(),
                0 <= x1 <= j <= x2 < est.columns(),
                0 <= ymin <= k <= ymax < est.rows(),
                acc == row_load(*est, red@, k as int, x1 as int, j as int, acc0 as int),
                -0x8000_0000 <= acc <= 0x7fff_ffff,
            decreases x2 - j,
        {
            proof {
                lemma_at2(j as int, k as int, est.columns(), est.rows());
                assert(est.has_h(j as int, k as int));
                assert(-SHIFT_ROOM <= est.eh(j as int, k as int) <= SHIFT_ROOM);
            }
            let v: i64 = est.h(j as usize, k as usize);
            let b: u16 = red[k as usize * est.x_grids + j as usize];
            acc = half_sum(acc, v as i128 + 2 * (b as i128));
            j += 1;
        }
        k += 1;
    }
    acc as i32
}

/// The load of the vertical edges of a gap between two rows, over the columns of a net: what stretches
/// the gap.
pub fn gap_usage_v(est: &EstimateGrid, red: &Vec<u16>, xmin: i32, xmax: i32, y1: i32, y2: i32) -> (r: i32)
    requires
        est.wf(),
        est.within(SHIFT_ROOM as int),
        red@.len() == est.rows() * est.columns(),
        0 <= xmin <= xmax < est.columns(),
        0 <= y1 <= y2 < est.rows(),
    ensures
        r == gap_load_v(*est, red@, xmin as int, xmax + 1, y1 as int, y2 as int),
{
    let mut acc: i128 = 0;
    let total: usize = red.len();
    let mut k: i64 = y1 as i64;
    while k < y2 as i64
        invariant
            est.wf(),
            est.within(SHIFT_ROOM as int),
            total == red@.len() == est.rows() * est.columns(),
            0 <= xmin <= xmax < est.columns(),
            0 <= y1 <= k <= y2,
            y2 < est.rows(),
            acc == gap_load_v(*est, red@, xmin as int, xmax + 1, y1 as int, k as int),
            -0x8000_0000 <= acc <= 0x7fff_ffff,
        decreases y2 - k,
    {
        let ghost acc0 = acc;
        let mut j: i64 = xmin as i64;
        while j <= xmax as i64
            invariant
                est.wf(),
                est.within(SHIFT_ROOM as int),
                total == red@.len() == est.rows() * est.columns(),
                0 <= xmin <= j <= xmax + 1,
                xmax < est.columns(),
                0 <= y1 <= k < y2 < est.rows(),
                acc == rise_load(*est, red@, k as int, xmin as int, j as int, acc0 as int),
                -0x8000_0000 <= acc <= 0x7fff_ffff,
            decreases xmax + 1 - j,
        {
            proof {
                lemma_at2(j as int, k as int, est.columns(), est.rows());
                assert(est.has_v(j as int, k as int));
                assert(-SHIFT_ROOM <= est.ev(j as int, k as int) <= SHIFT_ROOM);
            }
            let v: i64 = est.v(j as usize, k as usize);
            let b: u16 = red[k as usize * est.x_grids + j as usize];
            acc = half_sum(acc, v as i128 + 2 * (b as i128));
            j += 1;
        }
        k += 1;
    }
    acc as i32
}

// ---- one net's turn ----

/// What a net keeps from one stage to the next.
#[derive(Debug)]
pub struct NetTrees {
    /// The net's segments; those of an earlier tree stay before the later ones.
    pub seglist: Vec<RoutedSegment>,
    pub tree: Option<StTree>,
}

/// The totals of a stage.
#[derive(Debug, Clone, Copy, PartialEq, Eq, Structural)]
pub struct BrkSummary {
    pub wirelength: i64,
    pub wirelength1: i64,
    pub total_num_seg: usize,
    pub num_shift: i64,
}

/// The lengths of the first `n` edges.
pub open spec fn edge_lengths(edges: Seq<TreeEdge>, n: int) -> int
    decreases n,
{
    if n <= 0 { 0 } else { edge_lengths(edges, n - 1) + edges[n - 1].len }
}

/// The length of a net's tree, zero without one.
pub open spec fn kept_length(t: Option<StTree>) -> int {
    match t {
        Some(t) => edge_lengths(t.edges@, t.edges@.len() as int),
        None => 0,
    }
}

fn sum_edges(edges: &Vec<TreeEdge>) -> (r: i128)
    ensures
        r == edge_lengths(edges@, edges@.len() as int),
{
    let mut sum: i128 = 0;
    let mut k: usize = 0;
    while k < edges.len()
        invariant
            k <= edges@.len(),
            sum == edge_lengths(edges@, k as int),
            -0x8000_0000 * k <= sum <= 0x8000_0000 * k,
        decreases edges@.len() - k,
    {
        sum = sum + edges[k].len as i128;
        k += 1;
    }
    sum
}

/// Takes a net's tree, once built and shifted: copies it where the stage asks for that, adds its
/// segments to the net's list, and the stage's totals. Nothing is added where the copy is refused.
pub fn gen_brk_rsmt(flags: BrkFlags, net: &RsmtNet, tree: &RsmtTree, shifts: i64, state: &mut NetTrees, sum: &mut BrkSummary) -> (r: Result<(), CopyTreeError>)
    requires
        tree.branch@.len() > 0,
        tree.deg <= tree.branch@.len(),
        tree.branch@.len() < i32::MAX,
        parents_fit(tree.branch@),
        forall|i: int| 0 <= i < tree.branch@.len() ==> fits(#[trigger] branch_length(tree.branch@, i)),
        net.pins_x@.len() == net.pins_y@.len(),
        net.pins_x@.len() < i32::MAX,
        old(sum).wirelength + tree_length(tree.branch@, tree.branch@.len() as int) <= i64::MAX,
        old(sum).wirelength >= 0,
        old(sum).total_num_seg + old(state).seglist@.len() + tree.branch@.len() <= usize::MAX,
        i64::MIN <= old(sum).num_shift + shifts <= i64::MAX,
        flags.congestion_driven && !flags.gen_tree ==> i64::MIN <= old(sum).wirelength1 + kept_length(old(state).tree) <= i64::MAX,
        flags.congestion_driven && flags.gen_tree ==> i64::MIN <= old(sum).wirelength1 + edge_lengths(
            edge_list(tree.branch@, tree.branch@.len() as int),
            edge_list(tree.branch@, tree.branch@.len() as int).len() as int,
        ) <= i64::MAX,
    ensures
        match r {
            Ok(()) => {
                &&& flags.gen_tree ==> (final(state).tree matches Some(t) && is_copy(*tree, *net, t))
                &&& !flags.gen_tree ==> final(state).tree == old(state).tree
                &&& final(state).seglist@ == old(state).seglist@ + tree_segments(tree.branch@, tree.branch@.len() as int, net.edge_cost)
                &&& final(sum).wirelength == old(sum).wirelength + tree_length(tree.branch@, tree.branch@.len() as int)
                &&& final(sum).wirelength1 == old(sum).wirelength1 + (if flags.congestion_driven { kept_length(final(state).tree) } else { 0 })
                &&& final(sum).total_num_seg == old(sum).total_num_seg + final(state).seglist@.len()
                &&& final(sum).num_shift == old(sum).num_shift + shifts
            },
            Err(e) => {
                &&& flags.gen_tree
                &&& e == CopyTreeError::InvalidNeighbors <==> is_overfull(tree.branch@)
                &&& e matches CopyTreeError::EdgeCount { edges, nodes } ==> edges == edge_count(tree.branch@, tree.branch@.len() as int) && nodes == tree.branch@.len() && edges != nodes - 1
                &&& *final(state) == *old(state)
                &&& *final(sum) == *old(sum)
            },
        },
{

    if flags.gen_tree {
        match copy_st_tree(tree, net) {
            Ok(t) => {
                state.tree = Some(t);
            },
            Err(e) => {
                return Err(e);
            },
        }
    }
    if flags.congestion_driven {
        let kept: i128 = match &state.tree {
            Some(t) => sum_edges(&t.edges),
            None => 0,
        };
        assert(kept == kept_length(state.tree));
        sum.wirelength1 = (sum.wirelength1 as i128 + kept) as i64;
    }
    let length: i64 = append_segments(tree, net.edge_cost, &mut state.seglist);
    proof {
        lemma_segments_bound(tree.branch@, tree.branch@.len() as int, net.edge_cost);
    }
    sum.wirelength = sum.wirelength + length;
    sum.total_num_seg = sum.total_num_seg + state.seglist.len();
    sum.num_shift = sum.num_shift + shifts;
    Ok(())
}

proof fn lemma_segments_bound(branch: Seq<Branch>, n: int, edge_cost: i8)
    requires
        0 <= n,
    ensures
        tree_segments(branch, n, edge_cost).len() <= n,
    decreases n,
{
    if n > 0 {
        lemma_segments_bound(branch, n - 1, edge_cost);
    }
}

/// The segments of a tree are those of the branches that lead somewhere, in order, each from its
/// end with the lesser column to the other; they bend along the column first.
pub proof fn a_tree_gives_a_segment_for_every_branch_with_a_length(branch: Seq<Branch>, edge_cost: i8, n: int)
    requires
        0 <= n,
    ensures
        tree_segments(branch, n, edge_cost) == all_of(
            n,
            |k: int| if branch[k].x != branch[branch[k].n as int].x || branch[k].y != branch[branch[k].n as int].y { seq![RoutedSegment { seg: branch_segment(branch, k, edge_cost), x_first: false }] } else { Seq::empty() },
        ),
    decreases n,
{
    let f = |k: int| if branch[k].x != branch[branch[k].n as int].x || branch[k].y != branch[branch[k].n as int].y { seq![RoutedSegment { seg: branch_segment(branch, k, edge_cost), x_first: false }] } else { Seq::empty() };
    if n > 0 {
        a_tree_gives_a_segment_for_every_branch_with_a_length(branch, edge_cost, n - 1);
        lemma_all_next(n - 1, f);
    } else {
        lemma_all_none(f);
    }
    assert(tree_segments(branch, n, edge_cost) =~= all_of(n, f));
}

/// A tree is as long as its branches are, each counted across and along.
pub proof fn a_tree_is_as_long_as_its_branches(branch: Seq<Branch>, n: int)
    requires
        0 <= n,
    ensures
        tree_length(branch, n) == sum_of(
            n,
            |k: int| dist(branch[k].x as int, branch[branch[k].n as int].x as int) + dist(branch[k].y as int, branch[branch[k].n as int].y as int),
        ),
    decreases n,
{
    let f = |k: int| dist(branch[k].x as int, branch[branch[k].n as int].x as int) + dist(branch[k].y as int, branch[branch[k].n as int].y as int);
    if n > 0 {
        a_tree_is_as_long_as_its_branches(branch, n - 1);
        lemma_sum_next(n - 1, f);
    } else {
        lemma_sum_none(f);
    }
}

/// A tree has as many edges as it has branches that do not lead to themselves.
pub proof fn every_branch_but_the_root_is_an_edge(branch: Seq<Branch>, n: int)
    requires
        0 <= n,
    ensures
        edge_count(branch, n) == count_of(
            n,
            |k: int| branch[k].n != k,
        ),
    decreases n,
{
    let f = |k: int| branch[k].n != k;
    if n > 0 {
        every_branch_but_the_root_is_an_edge(branch, n - 1);
        lemma_count_next(n - 1, f);
    } else {
        lemma_count_none(f);
    }
}

/// The neighbours of a node are the end of its own branch and the starts of the branches that
/// lead to it, in the order of the branches.
pub proof fn the_neighbours_of_a_node_are_its_two_sides_of_branches(branch: Seq<Branch>, v: int, n: int)
    requires
        0 <= n,
    ensures
        nbr_list(branch, v, n) == all_of(
            n,
            |k: int| if branch[k].n == k { Seq::empty() } else if k == v { seq![branch[k].n] } else if branch[k].n == v { seq![k as usize] } else { Seq::empty() },
        ),
    decreases n,
{
    let f = |k: int| if branch[k].n == k { Seq::empty() } else if k == v { seq![branch[k].n] } else if branch[k].n == v { seq![k as usize] } else { Seq::empty() };
    if n > 0 {
        the_neighbours_of_a_node_are_its_two_sides_of_branches(branch, v, n - 1);
        lemma_all_next(n - 1, f);
    } else {
        lemma_all_none(f);
    }
    assert(nbr_list(branch, v, n) =~= all_of(n, f));
}

/// The edges of a node are those of the branches that start or end there, each by its place among
/// the edges.
pub proof fn the_edges_of_a_node_are_those_that_end_there(branch: Seq<Branch>, v: int, n: int)
    requires
        0 <= n,
    ensures
        nbr_edges(branch, v, n) == all_of(
            n,
            |k: int| if branch[k].n != k && (k == v || branch[k].n == v) { seq![edge_count(branch, k) as usize] } else { Seq::empty() },
        ),
    decreases n,
{
    let f = |k: int| if branch[k].n != k && (k == v || branch[k].n == v) { seq![edge_count(branch, k) as usize] } else { Seq::empty() };
    if n > 0 {
        the_edges_of_a_node_are_those_that_end_there(branch, v, n - 1);
        lemma_all_next(n - 1, f);
    } else {
        lemma_all_none(f);
    }
    assert(nbr_edges(branch, v, n) =~= all_of(n, f));
}

/// As many pins stand at a place as have both of its coordinates.
pub proof fn pins_at_a_place_are_counted(px: Seq<i32>, py: Seq<i32>, x: int, y: int, n: int)
    requires
        0 <= n,
    ensures
        pins_at(px, py, x, y, n) == count_of(
            n,
            |k: int| px[k] == x && py[k] == y,
        ),
    decreases n,
{
    let f = |k: int| px[k] == x && py[k] == y;
    if n > 0 {
        pins_at_a_place_are_counted(px, py, x, y, n - 1);
        lemma_count_next(n - 1, f);
    } else {
        lemma_count_none(f);
    }
}

/// The length of the edges in all is the sum of their lengths.
pub proof fn the_edges_of_a_tree_are_as_long_as_they_are_in_all(edges: Seq<TreeEdge>, n: int)
    requires
        0 <= n,
    ensures
        edge_lengths(edges, n) == sum_of(
            n,
            |k: int| edges[k].len as int,
        ),
    decreases n,
{
    let f = |k: int| edges[k].len as int;
    if n > 0 {
        the_edges_of_a_tree_are_as_long_as_they_are_in_all(edges, n - 1);
        lemma_sum_next(n - 1, f);
    } else {
        lemma_sum_none(f);
    }
}

/// Across, routed segments take from an edge the sum of what each takes.
pub proof fn the_usage_of_routed_segments_adds_up_across(segs: Seq<RoutedSegment>, x: int, y: int, n: int)
    requires
        0 <= n,
    ensures
        routed_h(segs, n, x, y) == sum_of(
            n,
            |k: int| l_h(segs[k].seg, if segs[k].x_first { LShape::XFirst } else { LShape::YFirst }, x, y),
        ),
    decreases n,
{
    let f = |k: int| l_h(segs[k].seg, if segs[k].x_first { LShape::XFirst } else { LShape::YFirst }, x, y);
    if n > 0 {
        the_usage_of_routed_segments_adds_up_across(segs, x, y, n - 1);
        lemma_sum_next(n - 1, f);
    } else {
        lemma_sum_none(f);
    }
}

/// Along, routed segments take from an edge the sum of what each takes.
pub proof fn the_usage_of_routed_segments_adds_up_along(segs: Seq<RoutedSegment>, x: int, y: int, n: int)
    requires
        0 <= n,
    ensures
        routed_v(segs, n, x, y) == sum_of(
            n,
            |k: int| l_v(segs[k].seg, if segs[k].x_first { LShape::XFirst } else { LShape::YFirst }, x, y),
        ),
    decreases n,
{
    let f = |k: int| l_v(segs[k].seg, if segs[k].x_first { LShape::XFirst } else { LShape::YFirst }, x, y);
    if n > 0 {
        the_usage_of_routed_segments_adds_up_along(segs, x, y, n - 1);
        lemma_sum_next(n - 1, f);
    } else {
        lemma_sum_none(f);
    }
}

/// The greatest coordinate of a list is one of its own and none is greater; zero stands in for a
/// list with none above it.
pub proof fn the_greatest_of_a_list_is_in_it(s: Seq<i32>, n: int)
    requires
        0 <= n,
    ensures
        is_most_of(most_of(s, n), 0, n, |k: int| s[k] as int),
    decreases n,
{
    let f = |k: int| s[k] as int;
    if n > 0 {
        the_greatest_of_a_list_is_in_it(s, n - 1);
        let m = most_of(s, (n - 1));
        assert forall|k: int| 0 <= k < n implies #[trigger] f(k) <= most_of(s, n) by {
            if k < n - 1 {
                assert(f(k) <= m);
            }
        }
        if most_of(s, n) == m {
            if m != 0 {
                let k = choose|k: int| 0 <= k < n - 1 && #[trigger] f(k) == m;
                assert(f(k) == most_of(s, n));
            }
        } else {
            assert(f(n - 1) == most_of(s, n));
        }
    }
}

/// The least coordinate of a list is one of its own and none is less, as long as one lies under
/// the upper bound.
pub proof fn the_least_of_a_list_is_in_it(s: Seq<i32>, n: int)
    requires
        0 <= n,
    ensures
        is_least_of(least_of(s, n), BIG_INT as int, n, |k: int| s[k] as int),
    decreases n,
{
    let f = |k: int| s[k] as int;
    if n > 0 {
        the_least_of_a_list_is_in_it(s, n - 1);
        let m = least_of(s, (n - 1));
        assert forall|k: int| 0 <= k < n implies #[trigger] f(k) >= least_of(s, n) by {
            if k < n - 1 {
                assert(f(k) >= m);
            }
        }
        if least_of(s, n) == m {
            if m != BIG_INT as int {
                let k = choose|k: int| 0 <= k < n - 1 && #[trigger] f(k) == m;
                assert(f(k) == least_of(s, n));
            }
        } else {
            assert(f(n - 1) == least_of(s, n));
        }
    }
}

/// A line of the grid stands as far from the first as the gaps between them sum up to.
pub proof fn a_coordinate_is_the_start_and_the_gaps_before_it(start: int, gaps: Seq<i32>, n: int)
    requires
        0 <= n,
    ensures
        placed(start, gaps, n) - start == sum_of(
            n,
            |k: int| gaps[k] as int,
        ),
    decreases n,
{
    let f = |k: int| gaps[k] as int;
    if n > 0 {
        a_coordinate_is_the_start_and_the_gaps_before_it(start, gaps, n - 1);
        lemma_sum_next(n - 1, f);
    } else {
        lemma_sum_none(f);
    }
}

/// Whether a Steiner node's edge stays among the Steiner nodes: no terminal is a parent.
pub open spec fn terminals_are_leaves(branch: Seq<Branch>, deg: int) -> bool {
    forall|i: int| 0 <= i < branch.len() ==> deg <= (#[trigger] branch[i]).n
}

proof fn lemma_move_is_steiner(est: EstimateGrid, branch: Seq<Branch>, rows: ShiftTable, deg: int, m: int)
    requires
        0 <= deg,
        m <= branch.len(),
        terminals_are_leaves(branch, deg),
    ensures
        best_move(est, branch, rows, deg, m).benefit > -1 ==> deg <= best_move(est, branch, rows, deg, m).n1 && deg <= best_move(est, branch, rows, deg, m).n2,
        best_move(est, branch, rows, deg, m).benefit >= -1,
    decreases m - deg,
{
    if m > deg {
        lemma_move_is_steiner(est, branch, rows, deg, m - 1);
        assert(deg <= branch[m - 1].n);
    }
}

proof fn lemma_run_keeps_terminals(est: EstimateGrid, branch: Seq<Branch>, rows: ShiftTable, deg: int, pins: int, fuel: nat, i: int)
    requires
        shift_fits(est, branch, deg, pins),
        table_ok(rows, branch.len() as int, pins),
        terminals_are_leaves(branch, deg),
        0 <= i < deg <= branch.len(),
    ensures
        shift_run(est, branch, rows, deg, fuel).0[i] == branch[i],
    decreases fuel,
{
    let m = best_move(est, branch, rows, deg, branch.len() as int);
    if fuel > 0 && m.benefit > 0 {
        lemma_move_in_grid(est, branch, rows, deg, pins, branch.len() as int);
        lemma_move_is_steiner(est, branch, rows, deg, branch.len() as int);
        lemma_move_keeps(est, branch, deg, pins, m);
        let b1 = moved(branch, m);
        assert forall|k: int| 0 <= k < b1.len() implies deg <= (#[trigger] b1[k]).n by {
            assert(b1[k].n == branch[k].n);
        }
        lemma_run_keeps_terminals(est, b1, rows, deg, pins, (fuel - 1) as nat, i);
        assert(b1[i] == branch[i]);
    }
}

/// Shifting moves Steiner nodes only: every terminal stays where it is, and every node keeps its parent.
pub proof fn shifting_keeps_the_terminals_and_the_links(est: EstimateGrid, branch: Seq<Branch>, deg: int, pins: int, i: int)
    requires
        shift_fits(est, branch, deg, pins),
        terminals_are_leaves(branch, deg),
        0 <= deg <= branch.len(),
        0 <= pins,
        0 <= i < branch.len(),
    ensures
        edges_shifted(est, branch, deg, pins).0.len() == branch.len(),
        edges_shifted(est, branch, deg, pins).0[i].n == branch[i].n,
        i < deg ==> edges_shifted(est, branch, deg, pins).0[i] == branch[i],
{
    let rows = shift_table(branch, deg, pins);
    lemma_table_ok(est, branch, deg, pins, branch.len() as int);
    assert(table_ok(rows, branch.len() as int, pins));
    lemma_run_ends(est, branch, rows, deg, pins, i32::MAX as nat);
    let b = edges_shifted(est, branch, deg, pins).0;
    assert(branch[i].n == b[i].n);
    if i < deg {
        lemma_run_keeps_terminals(est, branch, rows, deg, pins, i32::MAX as nat, i);
    }
}

proof fn lemma_move_pays(est: EstimateGrid, branch: Seq<Branch>, rows: ShiftTable, deg: int, m: int)
    ensures
        ({
            let b = best_move(est, branch, rows, deg, m);
            b.benefit > -1 ==> exists|k: int| deg <= k < m && #[trigger] straight_pair(branch, k) == Some((b.n1, b.n2))
        }),
        ({
            let b = best_move(est, branch, rows, deg, m);
            let level = is_level(branch, b.n1, b.n2);
            b.benefit > -1 ==> b.benefit == pair_cost(est, branch, rows, b.n1, b.n2, coord(branch[b.n1], level), level) - pair_cost(
                est,
                branch,
                rows,
                b.n1,
                b.n2,
                b.pos,
                level,
            )
        }),
        best_move(est, branch, rows, deg, m).benefit >= -1,
    decreases m - deg,
{
    if m > deg {
        lemma_move_pays(est, branch, rows, deg, m - 1);
        let (old_move, b) = (best_move(est, branch, rows, deg, m - 1), best_move(est, branch, rows, deg, m));
        if b == old_move {
            if b.benefit > -1 {
                let k = choose|k: int| deg <= k < m - 1 && #[trigger] straight_pair(branch, k) == Some((b.n1, b.n2));
                assert(straight_pair(branch, k) == Some((b.n1, b.n2)));
            }
        } else {
            let (n1, n2) = straight_pair(branch, m - 1)->0;
            let level = is_level(branch, n1, n2);
            let (lo, hi) = band(branch, rows, n1, n2);
            lemma_place_has_cost(est, branch, rows, n1, n2, level, coord(branch[n1], level), lo, hi + 1);
            assert(straight_pair(branch, m - 1) == Some((b.n1, b.n2)));
        }
    }
}

/// A shift is that of a straight edge of a Steiner node and helps by what the edge then costs less; no
/// straight edge helps more at any place within reach of both its ends.
pub proof fn the_shift_taken_helps_most(est: EstimateGrid, branch: Seq<Branch>, rows: ShiftTable, deg: int, i: int, j: int)
    requires
        0 <= deg <= i < branch.len(),
        best_move(est, branch, rows, deg, branch.len() as int).benefit > 0,
        straight_pair(branch, i) is Some,
        ({
            let (n1, n2) = straight_pair(branch, i)->0;
            let level = is_level(branch, n1, n2);
            within_reach(branch, rows, n1, level, j) && within_reach(branch, rows, n2, level, j)
        }),
    ensures
        ({
            let b = best_move(est, branch, rows, deg, branch.len() as int);
            let level = is_level(branch, b.n1, b.n2);
            let (n1, n2) = straight_pair(branch, i)->0;
            let l = is_level(branch, n1, n2);
            let (now, there) = (pair_cost(est, branch, rows, n1, n2, coord(branch[n1], l), l), pair_cost(est, branch, rows, n1, n2, j, l));
            &&& exists|k: int| deg <= k < branch.len() && #[trigger] straight_pair(branch, k) == Some((b.n1, b.n2))
            &&& b.benefit == pair_cost(est, branch, rows, b.n1, b.n2, coord(branch[b.n1], level), level) - pair_cost(
                est,
                branch,
                rows,
                b.n1,
                b.n2,
                b.pos,
                level,
            )
            &&& there < BIG_INT ==> now - there <= b.benefit
        }),
{
    let (n1, n2) = straight_pair(branch, i)->0;
    let level = is_level(branch, n1, n2);
    lemma_reach_is_span(branch, rows, n1, level, j);
    lemma_reach_is_span(branch, rows, n2, level, j);
    lemma_move_pays(est, branch, rows, deg, branch.len() as int);
    lemma_best_move(est, branch, rows, deg, branch.len() as int, i, j);
}

/// Whether two nodes of a tree are linked, either way round.
pub open spec fn are_linked(branch: Seq<Branch>, u: int, v: int) -> bool {
    u != v && (branch[u].n == v || branch[v].n == u)
}

/// Whether two nodes are a pair, either way round.
pub open spec fn are_both(u: int, v: int, a: int, b: int) -> bool {
    (u == a && v == b) || (u == b && v == a)
}

/// Pairing two coincident nodes anew keeps every node where it is and changes two links only: the child
/// of the lower node is linked to the upper one instead, and the upper one's neighbour to the lower one.
pub proof fn pairing_anew_exchanges_two_links(branch: Seq<Branch>, p1: int, p2: int, a: int, b: int, u: int, v: int)
    requires
        0 <= p1 < branch.len(),
        0 <= p2 < branch.len(),
        0 <= a < branch.len(),
        0 <= b < branch.len(),
        p1 != p2,
        a != b,
        a != p1,
        a != p2,
        b != p1,
        b != p2,
        branch[a].n == p1,
        branch[p1].n == p2,
        (branch[p2].n == b) != (branch[b].n == p2),
        branch[b].n != a,
        0 <= u < branch.len(),
        0 <= v < branch.len(),
    ensures
        exchanged(branch, p1, p2, a, b).len() == branch.len(),
        exchanged(branch, p1, p2, a, b)[u].x == branch[u].x,
        exchanged(branch, p1, p2, a, b)[u].y == branch[u].y,
        are_linked(exchanged(branch, p1, p2, a, b), u, v) <==> {
            ||| are_both(u, v, a, p2)
            ||| are_both(u, v, p1, b)
            ||| are_linked(branch, u, v) && !are_both(u, v, a, p1) && !are_both(u, v, p2, b)
        },
{
}

/// The child taken is the last that hangs on the node and lies straight beside it, where one does.
pub proof fn the_child_taken_is_the_last_beside(branch: Seq<Branch>, p: int, level: bool, n: int)
    requires
        0 <= n <= branch.len() <= usize::MAX,
    ensures
        match last_child(branch, p, level, n) {
            Some(k) => {
                &&& k < n
                &&& branch[k as int].n == p
                &&& level ==> branch[k as int].y == branch[p].y && branch[k as int].x != branch[p].x
                &&& !level ==> branch[k as int].x == branch[p].x && branch[k as int].y != branch[p].y
                &&& forall|i: int| k < i < n ==> !((#[trigger] branch[i]).n == p && beside(branch[i], branch[p], level))
            },
            None => forall|i: int| 0 <= i < n ==> !((#[trigger] branch[i]).n == p && beside(branch[i], branch[p], level)),
        },
    decreases n,
{
    if n > 0 {
        the_child_taken_is_the_last_beside(branch, p, level, n - 1);
    }
}

/// Whether a shift's table names `u` as a neighbour of `v`: a terminal is one of its parent, and a
/// Steiner node other than the root and its parent are each other's.
pub open spec fn is_neighbour(branch: Seq<Branch>, deg: int, root: int, n: int, v: int, u: int) -> bool {
    ||| 0 <= u < n && branch[u].n == v && (u < deg || u != root)
    ||| deg <= v < n && v != root && branch[v].n == u
}

/// Whether a slot of a node names `u`.
pub open spec fn names(t: ShiftTable, v: int, u: int) -> bool {
    exists|k: int| 0 <= k < t.cnt[v] && #[trigger] slot(t, v, k) == u
}

proof fn lemma_enter(t: ShiftTable, v: int, u: int, w: int, y: int)
    requires
        can_enter(t, v),
        0 <= u <= usize::MAX,
        0 <= w < t.cnt.len(),
        3 * t.cnt.len() == t.nbr.len(),
        t.cnt[v] < 3,
        t.cnt[w] <= 3,
    ensures
        names(entered(t, v, u), w, y) == (names(t, w, y) || (w == v && y == u)),
{
    let e = entered(t, v, u);
    if names(t, w, y) {
        let k = choose|k: int| 0 <= k < t.cnt[w] && #[trigger] slot(t, w, k) == y;
        assert(slot(e, w, k) == y);
    }
    if w == v && y == u {
        assert(slot(e, w, t.cnt[v] as int) == u);
    }
    if names(e, w, y) {
        let k = choose|k: int| 0 <= k < e.cnt[w] && #[trigger] slot(e, w, k) == y;
        if w != v || k < t.cnt[v] {
            assert(slot(t, w, k) == y);
        }
    }
}

proof fn lemma_counts_grow(branch: Seq<Branch>, deg: int, root: int, size: int, n: int, v: int)
    requires
        0 < n <= branch.len() <= i32::MAX,
        0 <= v < size,
        forall|i: int| 0 <= i < n ==> #[trigger] has_room(branch, deg, root, size, i),
    ensures
        table_upto(branch, deg, root, size, n - 1).cnt[v] <= table_upto(branch, deg, root, size, n).cnt[v],
        table_upto(branch, deg, root, size, n).cnt.len() == size,
        table_upto(branch, deg, root, size, n).nbr.len() == 3 * size,
        table_upto(branch, deg, root, size, n).cnt[v] <= 2 * n,
    decreases n,
{
    assert(has_room(branch, deg, root, size, n - 1));
    if n > 1 {
        lemma_counts_grow(branch, deg, root, size, n - 1, v);
        let p = branch[n - 1].n as int;
        if 0 <= p < size {
            lemma_counts_grow(branch, deg, root, size, n - 1, p);
        }
        if 0 <= n - 1 < size {
            lemma_counts_grow(branch, deg, root, size, n - 1, n - 1);
        }
    }
}

/// As long as no node has more than three neighbours, a shift's table names exactly the neighbours of
/// every node.
pub proof fn the_table_names_every_neighbour(branch: Seq<Branch>, deg: int, root: int, size: int, n: int, v: int, u: int)
    requires
        0 <= n <= branch.len() <= i32::MAX,
        0 <= v < size,
        0 <= deg,
        forall|i: int| 0 <= i < n ==> #[trigger] has_room(branch, deg, root, size, i),
        forall|w: int| 0 <= w < size ==> (#[trigger] table_upto(branch, deg, root, size, n).cnt[w]) <= 3,
    ensures
        names(table_upto(branch, deg, root, size, n), v, u) <==> is_neighbour(branch, deg, root, n, v, u),
    decreases n,
{
    let t1 = table_upto(branch, deg, root, size, n);
    if n > 0 {
        let t = table_upto(branch, deg, root, size, n - 1);
        assert forall|w: int| 0 <= w < size implies (#[trigger] t.cnt[w]) <= 3 by {
            lemma_counts_grow(branch, deg, root, size, n, w);
            assert(t1.cnt[w] <= 3);
        }
        lemma_counts_grow(branch, deg, root, size, n, v);
        if n > 1 {
            lemma_counts_grow(branch, deg, root, size, n - 1, v);
        }
        assert(t.cnt.len() == size && t.nbr.len() == 3 * size);
        assert(has_room(branch, deg, root, size, n - 1));
        the_table_names_every_neighbour(branch, deg, root, size, n - 1, v, u);
        let p = branch[n - 1].n as int;
        if n - 1 < deg {
            assert(t1.cnt[p] == t.cnt[p] + 1);
            lemma_enter(t, p, n - 1, v, u);
        } else if n - 1 != root {
            let e = entered(t, n - 1, p);
            assert(t1.cnt[p] <= 3);
            assert(t1.cnt[n - 1] <= 3);
            assert(e.cnt[n - 1] == t.cnt[n - 1] + 1);
            assert(t1.cnt[p] == e.cnt[p] + 1);
            assert(e.cnt[v] <= t1.cnt[v]);
            assert(t1.cnt[v] <= 3);
            lemma_enter(t, n - 1, p, v, u);
            lemma_enter(e, p, n - 1, v, u);
        }
    } else {
        assert(t1.cnt[v] == 0);
    }
}

/// The cheaper L is one of the two, and neither is cheaper.
pub proof fn the_cheaper_way_round_a_box_is_taken(est: EstimateGrid, x1: int, x2: int, y1: int, y2: int)
    ensures
        ({
            let (below, above) = (run_v(est, x2, y1, y2, run_h(est, y1, x1, x2, 0)), run_v(est, x1, y1, y2, run_h(est, y2, x1, x2, 0)));
            let c = side_cost(est, x1, x2, y1, y2);
            c <= below && c <= above && (c == below || c == above)
        }),
{
}

/// Demands that are whole and together within the range of a sum are added up along a row.
pub proof fn the_demand_along_a_row_adds_up(est: EstimateGrid, y: int, a: int, acc: int, n: int)
    requires
        0 <= n,
        0 <= acc,
        forall|k: int| 0 <= k < n ==> (#[trigger] est.eh(a + k, y)) >= 0 && est.eh(a + k, y) % 2 == 0,
        acc + sum_of(n, |k: int| est.eh(a + k, y) / 2) <= i32::MAX,
    ensures
        run_h(est, y, a, a + n, acc) == acc + sum_of(n, |k: int| est.eh(a + k, y) / 2),
    decreases n,
{
    let f = |k: int| est.eh(a + k, y) / 2;
    if n > 0 {
        lemma_sum_next(n - 1, f);
        assert(est.eh(a + (n - 1), y) >= 0);
        the_demand_along_a_row_adds_up(est, y, a, acc, n - 1);
        lemma_sum_positive(n - 1, f);
    } else {
        lemma_sum_none(f);
    }
}

/// Demands that are whole and together within the range of a sum are added up along a column.
pub proof fn the_demand_along_a_column_adds_up(est: EstimateGrid, x: int, a: int, acc: int, n: int)
    requires
        0 <= n,
        0 <= acc,
        forall|k: int| 0 <= k < n ==> (#[trigger] est.ev(x, a + k)) >= 0 && est.ev(x, a + k) % 2 == 0,
        acc + sum_of(n, |k: int| est.ev(x, a + k) / 2) <= i32::MAX,
    ensures
        run_v(est, x, a, a + n, acc) == acc + sum_of(n, |k: int| est.ev(x, a + k) / 2),
    decreases n,
{
    let f = |k: int| est.ev(x, a + k) / 2;
    if n > 0 {
        lemma_sum_next(n - 1, f);
        assert(est.ev(x, a + (n - 1)) >= 0);
        the_demand_along_a_column_adds_up(est, x, a, acc, n - 1);
        lemma_sum_positive(n - 1, f);
    } else {
        lemma_sum_none(f);
    }
}

proof fn lemma_sum_positive(n: int, f: spec_fn(int) -> int)
    requires
        0 <= n,
        forall|k: int| 0 <= k < n ==> #[trigger] f(k) >= 0,
    ensures
        sum_of(n, f) >= 0,
    decreases n,
{
    if n > 0 {
        lemma_sum_next(n - 1, f);
        lemma_sum_positive(n - 1, f);
    } else {
        lemma_sum_none(f);
    }
}

/// The middle one of three is one of them, with one of the others at most as great and one at least.
pub proof fn the_median_lies_between_the_others(a: i32, b: i32, c: i32)
    ensures
        median(a, b, c) == median(b, a, c),
        median(a, b, c) == median(a, c, b),
        median(a, b, c) == a || median(a, b, c) == b || median(a, b, c) == c,
        a <= b && b <= c ==> median(a, b, c) == b,
        c <= b && b <= a ==> median(a, b, c) == b,
        spread(a, b, c) == dist(a as int, median(a, b, c) as int) + dist(b as int, median(a, b, c) as int) + dist(c as int, median(a, b, c) as int),
{
}

/// The pairs that a round looks at are the Steiner nodes that lie on their parents, where neither
/// is a root, in order.
pub proof fn the_coincident_nodes_are_those_on_their_parents(branch: Seq<Branch>, deg: int, n: int)
    requires
        0 <= n,
    ensures
        stacked(branch, deg, deg + n) == all_of(
            n,
            |k: int| if branch[deg + k].n != deg + k && branch[branch[deg + k].n as int].n != branch[deg + k].n && branch[deg + k].x == branch[branch[deg + k].n as int].x && branch[deg + k].y == branch[branch[deg + k].n as int].y { seq![((deg + k) as usize, branch[deg + k].n)] } else { Seq::empty() },
        ),
    decreases n,
{
    let f = |k: int| if branch[deg + k].n != deg + k && branch[branch[deg + k].n as int].n != branch[deg + k].n && branch[deg + k].x == branch[branch[deg + k].n as int].x && branch[deg + k].y == branch[branch[deg + k].n as int].y { seq![((deg + k) as usize, branch[deg + k].n)] } else { Seq::empty() };
    if n > 0 {
        the_coincident_nodes_are_those_on_their_parents(branch, deg, n - 1);
        lemma_all_next(n - 1, f);
    } else {
        lemma_all_none(f);
    }
    assert(stacked(branch, deg, deg + n) =~= all_of(n, f));
}

/// An end of an edge costs the cheaper way to each of its neighbours but the edge's other end.
pub proof fn an_end_costs_the_ways_to_its_other_neighbours(est: EstimateGrid, branch: Seq<Branch>, t: ShiftTable, end: int, other: int, j: int, level: bool, n: int)
    requires
        0 <= n,
    ensures
        end_cost(est, branch, t, end, other, j, level, n) == sum_of(
            n,
            |k: int| if slot(t, end, k) != other { nbr_cost(est, branch, end, slot(t, end, k), j, level) } else { 0 },
        ),
    decreases n,
{
    let f = |k: int| if slot(t, end, k) != other { nbr_cost(est, branch, end, slot(t, end, k), j, level) } else { 0 };
    if n > 0 {
        an_end_costs_the_ways_to_its_other_neighbours(est, branch, t, end, other, j, level, n - 1);
        lemma_sum_next(n - 1, f);
    } else {
        lemma_sum_none(f);
    }
}

/// The pin taken for a node is the one at its place that is so many-eth there, and one is found wherever so
/// many stand there.
pub proof fn the_pin_of_a_place_is_the_one_counted(px: Seq<i32>, py: Seq<i32>, x: int, y: int, count: int, n: int)
    requires
        0 <= n <= px.len(),
        py.len() == px.len(),
        count >= 1,
    ensures
        ({
            let p = pin_place(px, py, x, y, count, n);
            &&& pins_at(px, py, x, y, n) >= 0
            &&& p >= 0 ==> p < n && px[p] == x && py[p] == y && pins_at(px, py, x, y, p + 1) == count
            &&& p < 0 <==> pins_at(px, py, x, y, n) < count
        }),
    decreases n,
{
    if n > 0 {
        the_pin_of_a_place_is_the_one_counted(px, py, x, y, count, n - 1);
    }
}

} // verus!
