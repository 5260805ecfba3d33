//! The three-dimensional checks and the via bookkeeping.
//!
//! Passes that run once the routing is final: count the vias, total the three-dimensional overflow,
//! verify that each route is a connected path with valid layers, and make sure every pin is
//! reachable from its net's routing. They choose their edges differently: the via count asks for a
//! positive length, the connection check for a length other than 0, and the pin coverage for a positive
//! length or a positive number of steps.

use crate::lists::{all_of, count_of, is_most_of, lemma_all_next, lemma_all_none, lemma_count_next, lemma_count_none, lemma_sum_next, lemma_sum_none, sum_of};
use vstd::prelude::*;

use crate::full3d::{push_rising, rising, steps, Point3D};
use crate::grids::fits;

verus! {

/// One edge of a routed net.
#[derive(Debug, PartialEq, Eq)]
pub struct RoutedEdge {
    pub len: i32,
    pub routelen: i32,
    /// Index of the edge's first and second node, for the connection check.
    pub n1: usize,
    pub n2: usize,
    pub grids: Vec<Point3D>,
}

/// A node of the net's tree.
#[derive(Debug, Clone, Copy, PartialEq, Eq, Structural)]
pub struct RoutedNode {
    pub x: i16,
    pub y: i16,
    pub bot_layer: i16,
    pub top_layer: i16,
    /// The layer of the pin this node carries, or `None` for a Steiner node.
    pub pin_layer: Option<i16>,
}

/// The steps among the first `n` of a route that change layer.
pub open spec fn layer_changes(grids: Seq<Point3D>, n: int) -> nat
    decreases n,
{
    if n <= 0 {
        0
    } else {
        layer_changes(grids, n - 1) + (if grids[n - 1].layer != grids[n].layer { 1nat } else { 0nat })
    }
}

/// The vias of one edge: an edge without a positive length has none.
pub open spec fn edge_vias(e: RoutedEdge) -> nat {
    if e.len <= 0 { 0 } else { layer_changes(e.grids@, steps(e.routelen)) }
}

/// The vias of the first `n` edges.
pub open spec fn vias_of(edges: Seq<RoutedEdge>, n: int) -> nat
    decreases n,
{
    if n <= 0 { 0 } else { vias_of(edges, n - 1) + edge_vias(edges[n - 1]) }
}

/// Whether an edge has the points its route length speaks of.
pub open spec fn has_points(e: RoutedEdge) -> bool {
    steps(e.routelen) < e.grids@.len()
}

proof fn lemma_vias_mono(edges: Seq<RoutedEdge>, a: int, b: int)
    requires
        a <= b,
    ensures
        vias_of(edges, a) <= vias_of(edges, b),
    decreases b - a,
{
    if a < b {
        lemma_vias_mono(edges, a, b - 1);
    }
}

proof fn lemma_changes_mono(g: Seq<Point3D>, a: int, b: int)
    requires
        a <= b,
    ensures
        layer_changes(g, a) <= layer_changes(g, b),
    decreases b - a,
{
    if a < b {
        lemma_changes_mono(g, a, b - 1);
    }
}

/// Counts every step that changes layer, over the edges with a positive length.
pub fn three_d_via(edges: &[RoutedEdge]) -> (vias: i32)
    requires
        forall|i: int| 0 <= i < edges@.len() && edges@[i].len > 0 && edges@[i].routelen > 0 ==> has_points(#[trigger] edges@[i]),
        vias_of(edges@, edges@.len() as int) <= i32::MAX,
    ensures
        vias == vias_of(edges@, edges@.len() as int),
{
    let mut vias: i32 = 0;
    let mut i: usize = 0;
    while i < edges.len()
        invariant
            i <= edges@.len(),
            forall|i: int| 0 <= i < edges@.len() && edges@[i].len > 0 && edges@[i].routelen > 0 ==> has_points(#[trigger] edges@[i]),
            vias_of(edges@, edges@.len() as int) <= i32::MAX,
            vias == vias_of(edges@, i as int),
        decreases edges@.len() - i,
    {
        let e = &edges[i];
        proof {
            lemma_vias_mono(edges@, i + 1, edges@.len() as int);
        }
        if e.len > 0 && e.routelen > 0 {
            let n: usize = e.routelen as usize;
            let mut j: usize = 0;
            while j < n
                invariant
                    j <= n < e.grids@.len(),
                    n == steps(e.routelen),
                    e.len > 0,
                    vias == vias_of(edges@, i as int) + layer_changes(e.grids@, j as int),
                    vias_of(edges@, i as int) + edge_vias(*e) <= i32::MAX,
                decreases n - j,
            {
                proof {
                    lemma_changes_mono(e.grids@, j + 1, n as int);
                }
                if e.grids[j].layer != e.grids[j + 1].layer {
                    vias += 1;
                }
                j += 1;
            }
        }
        i += 1;
    }
    vias
}

/// One grid edge's usage against its capacity, on one layer.
#[derive(Debug, Clone, Copy, PartialEq, Eq, Structural)]
pub struct Cell3D {
    /// `true` for a horizontal edge.
    pub horizontal: bool,
    pub usage: i32,
    pub capacity: i32,
}

/// The totals of the overflow pass.
#[derive(Debug, Clone, Copy, PartialEq, Eq, Structural, Default)]
pub struct Overflow3D {
    pub horizontal: i32,
    pub vertical: i32,
    pub max_horizontal: i32,
    pub max_vertical: i32,
    /// Horizontal plus vertical.
    pub total: i32,
    /// Every cell's usage, overflowing or not.
    pub total_usage: i32,
}

/// How far a cell's usage exceeds its capacity: 0 where it does not.
pub open spec fn excess(c: Cell3D) -> int {
    if c.usage > c.capacity { c.usage - c.capacity } else { 0 }
}

/// The usage of the first `n` cells.
pub open spec fn usage_sum(cells: Seq<Cell3D>, n: int) -> int
    decreases n,
{
    if n <= 0 { 0 } else { usage_sum(cells, n - 1) + cells[n - 1].usage }
}

/// The overflow of the first `n` cells in one direction.
pub open spec fn excess_sum(cells: Seq<Cell3D>, horizontal: bool, n: int) -> int
    decreases n,
{
    if n <= 0 {
        0
    } else {
        excess_sum(cells, horizontal, n - 1) + (if cells[n - 1].horizontal == horizontal { excess(cells[n - 1]) } else { 0 })
    }
}

/// The largest overflow of the first `n` cells in one direction.
pub open spec fn excess_max(cells: Seq<Cell3D>, horizontal: bool, n: int) -> int
    decreases n,
{
    if n <= 0 {
        0
    } else {
        let m = excess_max(cells, horizontal, n - 1);
        let x = if cells[n - 1].horizontal == horizontal { excess(cells[n - 1]) } else { 0 };
        if x > m { x } else { m }
    }
}

/// Totals the three-dimensional overflow. Usage is accumulated for every cell, overflow only for
/// the cells that exceed their capacity.
pub fn get_overflow_3d(cells: &[Cell3D]) -> (out: Overflow3D)
    requires
        forall|n: int| 0 <= n <= cells@.len() ==> fits(#[trigger] usage_sum(cells@, n)),
        forall|n: int| 0 <= n < cells@.len() ==> fits((#[trigger] cells@[n]).usage - cells@[n].capacity),
        forall|n: int| 0 <= n <= cells@.len() ==> fits(#[trigger] excess_sum(cells@, true, n)),
        forall|n: int| 0 <= n <= cells@.len() ==> fits(#[trigger] excess_sum(cells@, false, n)),
        fits(excess_sum(cells@, true, cells@.len() as int) + excess_sum(cells@, false, cells@.len() as int)),
    ensures
        out.horizontal == excess_sum(cells@, true, cells@.len() as int),
        out.vertical == excess_sum(cells@, false, cells@.len() as int),
        out.max_horizontal == excess_max(cells@, true, cells@.len() as int),
        out.max_vertical == excess_max(cells@, false, cells@.len() as int),
        out.total == out.horizontal + out.vertical,
        out.total_usage == usage_sum(cells@, cells@.len() as int),
{
    let mut out = Overflow3D { horizontal: 0, vertical: 0, max_horizontal: 0, max_vertical: 0, total: 0, total_usage: 0 };
    let mut i: usize = 0;
    while i < cells.len()
        invariant
            i <= cells@.len(),
            forall|n: int| 0 <= n <= cells@.len() ==> fits(#[trigger] usage_sum(cells@, n)),
            forall|n: int| 0 <= n < cells@.len() ==> fits((#[trigger] cells@[n]).usage - cells@[n].capacity),
            forall|n: int| 0 <= n <= cells@.len() ==> fits(#[trigger] excess_sum(cells@, true, n)),
            forall|n: int| 0 <= n <= cells@.len() ==> fits(#[trigger] excess_sum(cells@, false, n)),
            out.horizontal == excess_sum(cells@, true, i as int),
            out.vertical == excess_sum(cells@, false, i as int),
            out.max_horizontal == excess_max(cells@, true, i as int),
            out.max_vertical == excess_max(cells@, false, i as int),
            out.total_usage == usage_sum(cells@, i as int),
        decreases cells@.len() - i,
    {
        let cell = cells[i];
        proof {
            assert(fits(usage_sum(cells@, i + 1)));
            assert(fits(excess_sum(cells@, true, i + 1)));
            assert(fits(excess_sum(cells@, false, i + 1)));
        }
        out.total_usage = out.total_usage + cell.usage;
        let overflow: i32 = cell.usage - cell.capacity;
        if overflow > 0 {
            if cell.horizontal {
                out.horizontal = out.horizontal + overflow;
                out.max_horizontal = out.max_horizontal.max(overflow);
            } else {
                out.vertical = out.vertical + overflow;
                out.max_vertical = out.max_vertical.max(overflow);
            }
        }
        i += 1;
    }
    out.total = out.horizontal + out.vertical;
    out
}

/// There is overflow exactly where some cell's usage exceeds its capacity.
pub proof fn no_overflow_means_every_cell_fits(cells: Seq<Cell3D>, n: int)
    requires
        0 <= n <= cells.len(),
    ensures
        excess_sum(cells, true, n) >= 0,
        excess_sum(cells, false, n) >= 0,
        excess_sum(cells, true, n) + excess_sum(cells, false, n) == 0 <==> (forall|i: int|
            0 <= i < n ==> (#[trigger] cells[i]).usage <= cells[i].capacity),
    decreases n,
{
    if n > 0 {
        no_overflow_means_every_cell_fits(cells, n - 1);
        if excess_sum(cells, true, n) + excess_sum(cells, false, n) == 0 {
            assert(excess(cells[n - 1]) == 0);
        }
    }
}

/// Something wrong with a net's routing.
#[derive(Debug, Clone, Copy, PartialEq, Eq, Structural)]
pub enum RouteDefect {
    /// A terminal whose node layer range excludes its pin's layer.
    FloatingPin { node: usize },
    /// A grid point on a negative layer.
    NegativeLayer { edge: usize, point: usize, layer: i16 },
    /// The route does not start at its first node's position.
    StartsElsewhere { edge: usize },
    /// The route does not end at its second node's position.
    EndsElsewhere { edge: usize },
    /// Two consecutive points are not adjacent: the route is not a connected path.
    NotAPath { edge: usize, step: usize, distance: i32 },
}

/// Whether a node's pin lies outside the node's layers.
pub open spec fn floats(n: RoutedNode) -> bool {
    n.pin_layer matches Some(l) && (n.bot_layer > l || n.top_layer < l)
}

/// The floating pins among the first `n` nodes.
pub open spec fn floating_pins(nodes: Seq<RoutedNode>, n: int) -> Seq<RouteDefect>
    decreases n,
{
    if n <= 0 {
        Seq::empty()
    } else {
        let d = floating_pins(nodes, n - 1);
        if floats(nodes[n - 1]) {
            d.push(RouteDefect::FloatingPin { node: (n - 1) as usize })
        } else {
            d
        }
    }
}

pub open spec fn gap(a: i16, b: i16) -> int {
    if a <= b { b - a } else { a - b }
}

/// How far apart two points are, position and layer together.
pub open spec fn distance(a: Point3D, b: Point3D) -> int {
    gap(a.x, b.x) + gap(a.y, b.y) + gap(a.layer, b.layer)
}

/// The broken steps among the first `n` of a route.
pub open spec fn broken_steps(edge: int, g: Seq<Point3D>, n: int) -> Seq<RouteDefect>
    decreases n,
{
    if n <= 0 {
        Seq::empty()
    } else {
        let d = broken_steps(edge, g, n - 1);
        if distance(g[n - 1], g[n]) > 1 {
            d.push(
                RouteDefect::NotAPath {
                    edge: edge as usize,
                    step: (n - 1) as usize,
                    distance: distance(g[n - 1], g[n]) as i32,
                },
            )
        } else {
            d
        }
    }
}

/// The points on negative layers among the first `n` of a route.
pub open spec fn negative_points(edge: int, g: Seq<Point3D>, n: int) -> Seq<RouteDefect>
    decreases n,
{
    if n <= 0 {
        Seq::empty()
    } else {
        let d = negative_points(edge, g, n - 1);
        if g[n - 1].layer < 0 {
            d.push(RouteDefect::NegativeLayer { edge: edge as usize, point: (n - 1) as usize, layer: g[n - 1].layer })
        } else {
            d
        }
    }
}

/// What is wrong with one edge: an edge without length is not checked.
pub open spec fn edge_defects(nodes: Seq<RoutedNode>, e: RoutedEdge, id: int) -> Seq<RouteDefect> {
    let n = steps(e.routelen);
    let g = e.grids@;
    let (n1, n2) = (nodes[e.n1 as int], nodes[e.n2 as int]);
    let start = if g[0].x != n1.x || g[0].y != n1.y {
        seq![RouteDefect::StartsElsewhere { edge: id as usize }]
    } else {
        Seq::empty()
    };
    let end = if g[n].x != n2.x || g[n].y != n2.y {
        seq![RouteDefect::EndsElsewhere { edge: id as usize }]
    } else {
        Seq::empty()
    };
    if e.len == 0 {
        Seq::empty()
    } else {
        start + end + broken_steps(id, g, n) + negative_points(id, g, n + 1)
    }
}

/// What is wrong with the first `n` edges.
pub open spec fn edges_defects(nodes: Seq<RoutedNode>, edges: Seq<RoutedEdge>, n: int) -> Seq<RouteDefect>
    decreases n,
{
    if n <= 0 {
        Seq::empty()
    } else {
        edges_defects(nodes, edges, n - 1) + edge_defects(nodes, edges[n - 1], n - 1)
    }
}

/// Whether an edge can be checked: it has its nodes and its points.
pub open spec fn checkable(nodes: Seq<RoutedNode>, e: RoutedEdge) -> bool {
    e.len != 0 ==> has_points(e) && e.n1 < nodes.len() && e.n2 < nodes.len()
}

fn abs_diff(a: i16, b: i16) -> (d: i32)
    ensures
        d == gap(a, b),
        0 <= d <= 0xffff,
{
    if a <= b { b as i32 - a as i32 } else { a as i32 - b as i32 }
}

/// Checks one edge, appending what is wrong with it.
#[verifier::rlimit(40)]
#[verifier::spinoff_prover]
fn check_edge(nodes: &[RoutedNode], edge: &RoutedEdge, id: usize, out: &mut Vec<RouteDefect>)
    requires
        checkable(nodes@, *edge),
    ensures
        final(out)@ == old(out)@ + edge_defects(nodes@, *edge, id as int),
{
    if edge.len == 0 {
        assert(out@ =~= old(out)@ + edge_defects(nodes@, *edge, id as int));
        return;
    }
    let n: usize = if edge.routelen < 0 { 0 } else { edge.routelen as usize };
    let ghost g = edge.grids@;
    let (n1, n2) = (nodes[edge.n1], nodes[edge.n2]);
    if edge.grids[0].x != n1.x || edge.grids[0].y != n1.y {
        out.push(RouteDefect::StartsElsewhere { edge: id });
    }
    if edge.grids[n].x != n2.x || edge.grids[n].y != n2.y {
        out.push(RouteDefect::EndsElsewhere { edge: id });
    }
    let ghost o1 = out@;
    let mut i: usize = 0;
    while i < n
        invariant
            i <= n < g.len(),
            edge.grids@ == g,
            out@ == o1 + broken_steps(id as int, g, i as int),
        decreases n - i,
    {
        let (a, b) = (edge.grids[i], edge.grids[i + 1]);
        let d: i32 = abs_diff(a.x, b.x) + abs_diff(a.y, b.y) + abs_diff(a.layer, b.layer);
        if d > 1 {
            out.push(RouteDefect::NotAPath { edge: id, step: i, distance: d });
        }
        i += 1;
        assert(out@ =~= o1 + broken_steps(id as int, g, i as int));
    }
    let ghost o2 = out@;
    i = 0;
    let points: usize = edge.grids.len();
    while i <= n
        invariant
            i <= n + 1 <= points == g.len(),
            edge.grids@ == g,
            out@ == o2 + negative_points(id as int, g, i as int),
        decreases n + 1 - i,
    {
        if edge.grids[i].layer < 0 {
            out.push(RouteDefect::NegativeLayer { edge: id, point: i, layer: edge.grids[i].layer });
        }
        i += 1;
        assert(out@ =~= o2 + negative_points(id as int, g, i as int));
    }
    assert(out@ =~= old(out)@ + edge_defects(nodes@, *edge, id as int));
}

/// Checks one net's routing: the floating pins, then edge by edge the wrong ends, the broken steps
/// and the negative layers.
pub fn check_route_3d(nodes: &[RoutedNode], edges: &[RoutedEdge]) -> (out: Vec<RouteDefect>)
    requires
        forall|i: int| 0 <= i < edges@.len() ==> checkable(nodes@, #[trigger] edges@[i]),
    ensures
        out@ == floating_pins(nodes@, nodes@.len() as int) + edges_defects(nodes@, edges@, edges@.len() as int),
{
    let mut out: Vec<RouteDefect> = Vec::new();
    let mut i: usize = 0;
    while i < nodes.len()
        invariant
            i <= nodes@.len(),
            out@ == floating_pins(nodes@, i as int),
        decreases nodes@.len() - i,
    {
        let node = nodes[i];
        match node.pin_layer {
            Some(l) => {
                if node.bot_layer > l || node.top_layer < l {
                    out.push(RouteDefect::FloatingPin { node: i });
                }
            },
            None => {},
        }
        i += 1;
    }
    let ghost o1 = out@;
    i = 0;
    assert(out@ =~= o1 + edges_defects(nodes@, edges@, 0));
    while i < edges.len()
        invariant
            i <= edges@.len(),
            forall|i: int| 0 <= i < edges@.len() ==> checkable(nodes@, #[trigger] edges@[i]),
            out@ == o1 + edges_defects(nodes@, edges@, i as int),
        decreases edges@.len() - i,
    {
        check_edge(nodes, &edges[i], i, &mut out);
        i += 1;
        assert(out@ =~= o1 + edges_defects(nodes@, edges@, i as int));
    }
    out
}

/// A net without defects: no pin floats, and every checked edge runs from its first node to its
/// second in steps of one, on layers that are not negative.
pub proof fn no_defects_means_connected(nodes: Seq<RoutedNode>, edges: Seq<RoutedEdge>, id: int)
    requires
        floating_pins(nodes, nodes.len() as int) + edges_defects(nodes, edges, edges.len() as int) == Seq::<RouteDefect>::empty(),
        0 <= id < edges.len(),
        edges[id].len != 0,
    ensures
        forall|i: int| 0 <= i < nodes.len() ==> !floats(#[trigger] nodes[i]),
        ({
            let e = edges[id];
            let (n, g) = (steps(e.routelen), e.grids@);
            &&& g[0].x == nodes[e.n1 as int].x && g[0].y == nodes[e.n1 as int].y
            &&& g[n].x == nodes[e.n2 as int].x && g[n].y == nodes[e.n2 as int].y
            &&& forall|i: int| 0 <= i < n ==> distance(#[trigger] g[i], g[i + 1]) <= 1
            &&& forall|i: int| 0 <= i <= n ==> (#[trigger] g[i]).layer >= 0
        }),
{
    let (a, b) = (floating_pins(nodes, nodes.len() as int), edges_defects(nodes, edges, edges.len() as int));
    assert((a + b).len() == a.len() + b.len());
    lemma_no_floating(nodes, nodes.len() as int);
    lemma_no_edge_defects(nodes, edges, edges.len() as int, id);
    let e = edges[id];
    let (n, g) = (steps(e.routelen), e.grids@);
    let d = edge_defects(nodes, e, id);
    let (n1, n2) = (nodes[e.n1 as int], nodes[e.n2 as int]);
    let s1 = if g[0].x != n1.x || g[0].y != n1.y { seq![RouteDefect::StartsElsewhere { edge: id as usize }] } else { Seq::empty() };
    let s2 = if g[n].x != n2.x || g[n].y != n2.y { seq![RouteDefect::EndsElsewhere { edge: id as usize }] } else { Seq::empty() };
    assert(d == s1 + s2 + broken_steps(id, g, n) + negative_points(id, g, n + 1));
    assert(d.len() == s1.len() + s2.len() + broken_steps(id, g, n).len() + negative_points(id, g, n + 1).len());
    lemma_no_broken_steps(id, g, n);
    lemma_no_negative_points(id, g, n + 1);
}

proof fn lemma_no_floating(nodes: Seq<RoutedNode>, n: int)
    requires
        floating_pins(nodes, n).len() == 0,
    ensures
        forall|i: int| 0 <= i < n ==> !floats(#[trigger] nodes[i]),
    decreases n,
{
    if n > 0 {
        lemma_no_floating(nodes, n - 1);
    }
}

proof fn lemma_no_edge_defects(nodes: Seq<RoutedNode>, edges: Seq<RoutedEdge>, n: int, id: int)
    requires
        edges_defects(nodes, edges, n).len() == 0,
        0 <= id < n,
    ensures
        edge_defects(nodes, edges[id], id).len() == 0,
    decreases n,
{
    assert(edges_defects(nodes, edges, n).len() == edges_defects(nodes, edges, n - 1).len() + edge_defects(
        nodes, edges[n - 1], n - 1).len());
    if id < n - 1 {
        lemma_no_edge_defects(nodes, edges, n - 1, id);
    }
}

proof fn lemma_no_broken_steps(id: int, g: Seq<Point3D>, n: int)
    requires
        broken_steps(id, g, n).len() == 0,
    ensures
        forall|i: int| 0 <= i < n ==> distance(#[trigger] g[i], g[i + 1]) <= 1,
    decreases n,
{
    if n > 0 {
        lemma_no_broken_steps(id, g, n - 1);
    }
}

proof fn lemma_no_negative_points(id: int, g: Seq<Point3D>, n: int)
    requires
        negative_points(id, g, n).len() == 0,
    ensures
        forall|i: int| 0 <= i < n ==> (#[trigger] g[i]).layer >= 0,
    decreases n,
{
    if n > 0 {
        lemma_no_negative_points(id, g, n - 1);
    }
}

/// A via stack that makes a pin reachable.
#[derive(Debug, PartialEq, Eq)]
pub struct ViaStackEdge {
    pub pin: usize,
    pub routelen: i32,
    pub grids: Vec<Point3D>,
}

/// A layer range widened by a point at the position.
pub open spec fn widened(r: (i16, i16), p: Point3D, x: i16, y: i16) -> (i16, i16) {
    if p.x == x && p.y == y {
        (if p.layer < r.0 { p.layer } else { r.0 }, if p.layer > r.1 { p.layer } else { r.1 })
    } else {
        r
    }
}

/// The layer range at a position over the first `n` points of a route, from `r` on.
pub open spec fn points_range(g: Seq<Point3D>, n: int, x: i16, y: i16, r: (i16, i16)) -> (i16, i16)
    decreases n,
{
    if n <= 0 { r } else { widened(points_range(g, n - 1, x, y, r), g[n - 1], x, y) }
}

/// Whether the coverage pass reads an edge.
pub open spec fn covering(e: RoutedEdge) -> bool {
    e.len > 0 || e.routelen > 0
}

/// The layers that the first `n` edges visit at a position. The range starts inverted, from the
/// layer count down to -1, and keeps that where no edge comes by.
pub open spec fn visited_range(edges: Seq<RoutedEdge>, n: int, x: i16, y: i16, num_layers: i16) -> (i16, i16)
    decreases n,
{
    if n <= 0 {
        (num_layers, -1i16)
    } else {
        let r = visited_range(edges, n - 1, x, y, num_layers);
        let e = edges[n - 1];
        if covering(e) {
            points_range(e.grids@, steps(e.routelen) + 1, x, y, r)
        } else {
            r
        }
    }
}

/// Whether a terminal's bottom layer lies outside the layers visited at its position. Its top layer
/// is not asked.
pub open spec fn uncovered(t: RoutedNode, r: (i16, i16)) -> bool {
    t.bot_layer < r.0 || t.bot_layer > r.1
}

/// Whether `e` is the stack for terminal `pin`: from its bottom layer up to the visited range, or
/// from the visited range up to it.
pub open spec fn is_stack_for(e: ViaStackEdge, pin: int, t: RoutedNode, r: (i16, i16)) -> bool {
    let (lo, hi) = if t.bot_layer < r.0 { (t.bot_layer, r.0) } else { (r.1, t.bot_layer) };
    e.pin == pin && e.routelen == hi - lo && e.grids@ == rising(t.x, t.y, lo as int, hi + 1)
}

/// The terminals among the first `n` that need a stack, in order.
pub open spec fn uncovered_pins(terminals: Seq<RoutedNode>, edges: Seq<RoutedEdge>, num_layers: i16, n: int) -> Seq<int>
    decreases n,
{
    if n <= 0 {
        Seq::empty()
    } else {
        let t = terminals[n - 1];
        let s = uncovered_pins(terminals, edges, num_layers, n - 1);
        if uncovered(t, visited_range(edges, edges.len() as int, t.x, t.y, num_layers)) {
            s.push(n - 1)
        } else {
            s
        }
    }
}

fn visited(edges: &[RoutedEdge], x: i16, y: i16, num_layers: i16) -> (r: (i16, i16))
    requires
        forall|i: int| 0 <= i < edges@.len() && covering(edges@[i]) ==> has_points(#[trigger] edges@[i]),
    ensures
        r == visited_range(edges@, edges@.len() as int, x, y, num_layers),
{
    let mut r: (i16, i16) = (num_layers, -1);
    let mut i: usize = 0;
    while i < edges.len()
        invariant
            i <= edges@.len(),
            forall|i: int| 0 <= i < edges@.len() && covering(edges@[i]) ==> has_points(#[trigger] edges@[i]),
            r == visited_range(edges@, i as int, x, y, num_layers),
        decreases edges@.len() - i,
    {
        let e = &edges[i];
        if e.len > 0 || e.routelen > 0 {
            let n: usize = if e.routelen < 0 { 0 } else { e.routelen as usize };
            let ghost r0 = r;
            let points: usize = e.grids.len();
            let mut j: usize = 0;
            while j <= n
                invariant
                    j <= n + 1 <= points == e.grids@.len(),
                    r == points_range(e.grids@, j as int, x, y, r0),
                decreases n + 1 - j,
            {
                let p = e.grids[j];
                if p.x == x && p.y == y {
                    r = (r.0.min(p.layer), r.1.max(p.layer));
                }
                j += 1;
            }
        }
        i += 1;
    }
    r
}

/// Appends a via stack for every pin the routing does not already reach.
///
/// The layers visited are taken by position, so two pins at one position share them. A pin no edge
/// visits gets a stack that runs up to the layer count.
pub fn ensure_pin_coverage(terminals: &[RoutedNode], edges: &[RoutedEdge], num_layers: i16) -> (out: Vec<ViaStackEdge>)
    requires
        forall|i: int| 0 <= i < edges@.len() && covering(edges@[i]) ==> has_points(#[trigger] edges@[i]),
    ensures
        ({
            let pins = uncovered_pins(terminals@, edges@, num_layers, terminals@.len() as int);
            &&& out@.len() == pins.len()
            &&& forall|k: int| 0 <= k < pins.len() ==> {
                let t = terminals@[pins[k]];
                is_stack_for(#[trigger] out@[k], pins[k], t, visited_range(edges@, edges@.len() as int, t.x, t.y, num_layers))
            }
        }),
{
    let mut out: Vec<ViaStackEdge> = Vec::new();
    let mut i: usize = 0;
    while i < terminals.len()
        invariant
            i <= terminals@.len(),
            forall|i: int| 0 <= i < edges@.len() && covering(edges@[i]) ==> has_points(#[trigger] edges@[i]),
            out@.len() == uncovered_pins(terminals@, edges@, num_layers, i as int).len(),
            forall|k: int| 0 <= k < out@.len() ==> {
                let pins = uncovered_pins(terminals@, edges@, num_layers, i as int);
                let t = terminals@[pins[k]];
                is_stack_for(#[trigger] out@[k], pins[k], t, visited_range(edges@, edges@.len() as int, t.x, t.y, num_layers))
            },
        decreases terminals@.len() - i,
    {
        let t = terminals[i];
        let ghost o = out@;
        let (lo, hi) = visited(edges, t.x, t.y, num_layers);
        if t.bot_layer < lo || t.bot_layer > hi {
            let (a, b) = if t.bot_layer < lo { (t.bot_layer as i32, lo as i32) } else { (hi as i32, t.bot_layer as i32) };
            let mut grids: Vec<Point3D> = Vec::new();
            push_rising(&mut grids, t.x, t.y, a, b + 1);
            assert(grids@ =~= rising(t.x, t.y, a as int, b + 1));
            out.push(ViaStackEdge { pin: i, routelen: b - a, grids });
        }
        proof {
            let (p0, p1) = (uncovered_pins(terminals@, edges@, num_layers, i as int), uncovered_pins(terminals@, edges@, num_layers, i + 1));
            assert forall|k: int| 0 <= k < out@.len() implies {
                let t = terminals@[p1[k]];
                is_stack_for(#[trigger] out@[k], p1[k], t, visited_range(edges@, edges@.len() as int, t.x, t.y, num_layers))
            } by {
                if k < o.len() {
                    assert(out@[k] == o[k]);
                    assert(p1[k] == p0[k]);
                }
            }
        }
        i += 1;
    }
    out
}

/// As many vias are counted along an edge as there are steps whose two points lie on different
/// layers.
pub proof fn the_vias_of_an_edge_are_its_changes_of_layer(grids: Seq<Point3D>, n: int)
    requires
        0 <= n,
    ensures
        layer_changes(grids, n) as int == count_of(
            n,
            |k: int| grids[k].layer != grids[k + 1].layer,
        ),
    decreases n,
{
    let f = |k: int| grids[k].layer != grids[k + 1].layer;
    if n > 0 {
        the_vias_of_an_edge_are_its_changes_of_layer(grids, n - 1);
        lemma_count_next(n - 1, f);
    } else {
        lemma_count_none(f);
    }
}

/// A net has the vias of its edges of a length above zero, each over its whole route.
pub proof fn the_vias_of_a_net_are_those_of_its_edges(edges: Seq<RoutedEdge>, n: int)
    requires
        0 <= n,
    ensures
        vias_of(edges, n) as int == sum_of(
            n,
            |k: int| if edges[k].len > 0 { layer_changes(edges[k].grids@, steps(edges[k].routelen)) as int } else { 0 },
        ),
    decreases n,
{
    let f = |k: int| if edges[k].len > 0 { layer_changes(edges[k].grids@, steps(edges[k].routelen)) as int } else { 0 };
    if n > 0 {
        the_vias_of_a_net_are_those_of_its_edges(edges, n - 1);
        lemma_sum_next(n - 1, f);
    } else {
        lemma_sum_none(f);
    }
}

/// The usage in all is the sum over the cells, whichever way they run.
pub proof fn the_usage_is_that_of_all_cells(cells: Seq<Cell3D>, n: int)
    requires
        0 <= n,
    ensures
        usage_sum(cells, n) == sum_of(
            n,
            |k: int| cells[k].usage as int,
        ),
    decreases n,
{
    let f = |k: int| cells[k].usage as int;
    if n > 0 {
        the_usage_is_that_of_all_cells(cells, n - 1);
        lemma_sum_next(n - 1, f);
    } else {
        lemma_sum_none(f);
    }
}

/// The overflow of a direction sums, over the cells of that direction alone, how far the usage is
/// above the capacity.
pub proof fn the_overflow_of_a_direction_is_that_of_its_cells(cells: Seq<Cell3D>, horizontal: bool, n: int)
    requires
        0 <= n,
    ensures
        excess_sum(cells, horizontal, n) == sum_of(
            n,
            |k: int| if cells[k].horizontal == horizontal && cells[k].usage > cells[k].capacity { cells[k].usage - cells[k].capacity } else { 0 },
        ),
    decreases n,
{
    let f = |k: int| if cells[k].horizontal == horizontal && cells[k].usage > cells[k].capacity { cells[k].usage - cells[k].capacity } else { 0 };
    if n > 0 {
        the_overflow_of_a_direction_is_that_of_its_cells(cells, horizontal, n - 1);
        lemma_sum_next(n - 1, f);
    } else {
        lemma_sum_none(f);
    }
}

/// The greatest overflow of a direction is that of a cell of that direction, and no such cell has
/// more; it is zero where no cell is over its capacity.
pub proof fn the_greatest_overflow_is_that_of_a_cell(cells: Seq<Cell3D>, horizontal: bool, n: int)
    requires
        0 <= n,
    ensures
        is_most_of(excess_max(cells, horizontal, n), 0, n, |k: int| if cells[k].horizontal == horizontal { cells[k].usage - cells[k].capacity } else { 0 }),
    decreases n,
{
    let f = |k: int| if cells[k].horizontal == horizontal { cells[k].usage - cells[k].capacity } else { 0 };
    if n > 0 {
        the_greatest_overflow_is_that_of_a_cell(cells, horizontal, n - 1);
        let m = excess_max(cells, horizontal, (n - 1));
        assert forall|k: int| 0 <= k < n implies #[trigger] f(k) <= excess_max(cells, horizontal, n) by {
            if k < n - 1 {
                assert(f(k) <= m);
            }
        }
        if excess_max(cells, horizontal, n) == m {
            if m != 0 {
                let k = choose|k: int| 0 <= k < n - 1 && #[trigger] f(k) == m;
                assert(f(k) == excess_max(cells, horizontal, n));
            }
        } else {
            assert(f(n - 1) == excess_max(cells, horizontal, n));
        }
    }
}

/// The floating pins are those whose layer lies below or above the layers of their node, each
/// named once and in order.
pub proof fn a_pin_floats_where_its_node_does_not_cover_it(nodes: Seq<RoutedNode>, n: int)
    requires
        0 <= n,
    ensures
        floating_pins(nodes, n) == all_of(
            n,
            |k: int| if nodes[k].pin_layer is Some && !(nodes[k].bot_layer <= nodes[k].pin_layer->Some_0 <= nodes[k].top_layer) { seq![RouteDefect::FloatingPin { node: k as usize }] } else { Seq::empty() },
        ),
    decreases n,
{
    let f = |k: int| if nodes[k].pin_layer is Some && !(nodes[k].bot_layer <= nodes[k].pin_layer->Some_0 <= nodes[k].top_layer) { seq![RouteDefect::FloatingPin { node: k as usize }] } else { Seq::empty() };
    if n > 0 {
        a_pin_floats_where_its_node_does_not_cover_it(nodes, n - 1);
        lemma_all_next(n - 1, f);
    } else {
        lemma_all_none(f);
    }
    assert(floating_pins(nodes, n) =~= all_of(n, f));
}

/// The broken steps of a route are those whose ends are more than one apart, in order, each with
/// how far apart they are.
pub proof fn a_step_is_broken_where_it_is_longer_than_one(edge: int, g: Seq<Point3D>, n: int)
    requires
        0 <= n,
    ensures
        broken_steps(edge, g, n) == all_of(
            n,
            |k: int| if distance(g[k], g[k + 1]) > 1 { seq![RouteDefect::NotAPath { edge: edge as usize, step: k as usize, distance: distance(g[k], g[k + 1]) as i32 }] } else { Seq::empty() },
        ),
    decreases n,
{
    let f = |k: int| if distance(g[k], g[k + 1]) > 1 { seq![RouteDefect::NotAPath { edge: edge as usize, step: k as usize, distance: distance(g[k], g[k + 1]) as i32 }] } else { Seq::empty() };
    if n > 0 {
        a_step_is_broken_where_it_is_longer_than_one(edge, g, n - 1);
        lemma_all_next(n - 1, f);
    } else {
        lemma_all_none(f);
    }
    assert(broken_steps(edge, g, n) =~= all_of(n, f));
}

/// The points of a route that are reported for their layer are those whose layer is below zero,
/// in order.
pub proof fn a_point_under_the_layers_is_named(edge: int, g: Seq<Point3D>, n: int)
    requires
        0 <= n,
    ensures
        negative_points(edge, g, n) == all_of(
            n,
            |k: int| if g[k].layer < 0 { seq![RouteDefect::NegativeLayer { edge: edge as usize, point: k as usize, layer: g[k].layer }] } else { Seq::empty() },
        ),
    decreases n,
{
    let f = |k: int| if g[k].layer < 0 { seq![RouteDefect::NegativeLayer { edge: edge as usize, point: k as usize, layer: g[k].layer }] } else { Seq::empty() };
    if n > 0 {
        a_point_under_the_layers_is_named(edge, g, n - 1);
        lemma_all_next(n - 1, f);
    } else {
        lemma_all_none(f);
    }
    assert(negative_points(edge, g, n) =~= all_of(n, f));
}

/// Whether a range of layers is what points at a place make of another: it holds that one and every point's
/// layer, and each end is that one's or a point's.
pub open spec fn reaches_over(r: (i16, i16), from: (i16, i16), g: Seq<Point3D>, n: int, x: i16, y: i16) -> bool {
    &&& r.0 <= from.0 && from.1 <= r.1
    &&& forall|i: int| 0 <= i < n && (#[trigger] g[i]).x == x && g[i].y == y ==> r.0 <= g[i].layer <= r.1
    &&& r.0 == from.0 || exists|i: int| 0 <= i < n && (#[trigger] g[i]).x == x && g[i].y == y && g[i].layer == r.0
    &&& r.1 == from.1 || exists|i: int| 0 <= i < n && (#[trigger] g[i]).x == x && g[i].y == y && g[i].layer == r.1
}

/// The layers that a path visits at a place reach over every point of it there, and no further.
pub proof fn the_layers_visited_are_those_of_the_points_there(g: Seq<Point3D>, n: int, x: i16, y: i16, r: (i16, i16))
    requires
        0 <= n <= g.len(),
    ensures
        reaches_over(points_range(g, n, x, y, r), r, g, n, x, y),
    decreases n,
{
    if n > 0 {
        the_layers_visited_are_those_of_the_points_there(g, n - 1, x, y, r);
        let (a, b) = (points_range(g, n - 1, x, y, r), points_range(g, n, x, y, r));
        if b.0 == a.0 && a.0 != r.0 {
            let i = choose|i: int| 0 <= i < n - 1 && (#[trigger] g[i]).x == x && g[i].y == y && g[i].layer == a.0;
            assert(g[i].x == x);
        }
        if b.1 == a.1 && a.1 != r.1 {
            let i = choose|i: int| 0 <= i < n - 1 && (#[trigger] g[i]).x == x && g[i].y == y && g[i].layer == a.1;
            assert(g[i].x == x);
        }
        assert(b != a ==> g[n - 1].x == x && g[n - 1].y == y);
    }
}

/// Every point of a path that has a length or a route lies within the layers visited at its place.
pub proof fn every_path_widens_the_layers_visited(edges: Seq<RoutedEdge>, n: int, x: i16, y: i16, num_layers: i16, j: int, i: int)
    requires
        0 <= n <= edges.len(),
        0 <= j < n,
        edges[j].len > 0 || edges[j].routelen > 0,
        0 <= i <= steps(edges[j].routelen),
        forall|k: int| 0 <= k < n ==> steps((#[trigger] edges[k]).routelen) < edges[k].grids@.len(),
        edges[j].grids@[i].x == x,
        edges[j].grids@[i].y == y,
    ensures
        visited_range(edges, n, x, y, num_layers).0 <= edges[j].grids@[i].layer <= visited_range(edges, n, x, y, num_layers).1,
    decreases n,
{
    let e = edges[n - 1];
    let r = visited_range(edges, n - 1, x, y, num_layers);
    if covering(e) {
        the_layers_visited_are_those_of_the_points_there(e.grids@, steps(e.routelen) + 1, x, y, r);
    }
    if j < n - 1 {
        every_path_widens_the_layers_visited(edges, n - 1, x, y, num_layers, j, i);
    }
}

/// The pins not covered are those whose lowest layer is not among the layers that the paths visit
/// at their place, in order.
pub proof fn the_pins_not_covered_are_those_off_the_layers_visited(terminals: Seq<RoutedNode>, edges: Seq<RoutedEdge>, num_layers: i16, n: int)
    requires
        0 <= n,
    ensures
        uncovered_pins(terminals, edges, num_layers, n) == all_of(
            n,
            |k: int| if visited_range(edges, edges.len() as int, terminals[k].x, terminals[k].y, num_layers).0 <= terminals[k].bot_layer <= visited_range(edges, edges.len() as int, terminals[k].x, terminals[k].y, num_layers).1 { Seq::empty() } else { seq![k] },
        ),
    decreases n,
{
    let f = |k: int| if visited_range(edges, edges.len() as int, terminals[k].x, terminals[k].y, num_layers).0 <= terminals[k].bot_layer <= visited_range(edges, edges.len() as int, terminals[k].x, terminals[k].y, num_layers).1 { Seq::empty() } else { seq![k] };
    if n > 0 {
        the_pins_not_covered_are_those_off_the_layers_visited(terminals, edges, num_layers, n - 1);
        lemma_all_next(n - 1, f);
    } else {
        lemma_all_none(f);
    }
    assert(uncovered_pins(terminals, edges, num_layers, n) =~= all_of(n, f));
}

} // verus!
