//! What routes take of the edges, charged and taken back.

use crate::lists::{all_of, count_of, lemma_all_next, lemma_all_none, lemma_count_next, lemma_count_none};
use vstd::prelude::*;

use crate::adjust::{EdgeState, RouterEdges};
use crate::brk_rsmt::{CapLayer, Caps3D};
use crate::finalize::Graph3d;
use crate::full3d::{Edge3D, Point3D};
use crate::grids::{at2, lemma_at2, lemma_at2_injective};

verus! {

/// An edge of a layer: its direction, the layer counted from 0, and its first cell.
#[derive(Debug, Clone, Copy, PartialEq, Eq, Structural)]
pub struct LayerEdge {
    pub horizontal: bool,
    pub layer: usize,
    pub x: i32,
    pub y: i32,
}

/// The tiles that a wire reaches: its lowest and its highest column and row, on a layer counted from 0.
#[derive(Debug, Clone, Copy, PartialEq, Eq, Structural)]
pub struct TileSpan {
    pub x0: i32,
    pub y0: i32,
    pub x1: i32,
    pub y1: i32,
    pub layer: usize,
}

/// The edges of a span: along its row where it has one row, else along its column where it has one column.
/// A span inside one tile has none.
pub open spec fn span_edges(s: TileSpan) -> Seq<LayerEdge> {
    if s.y0 == s.y1 {
        Seq::new((if s.x0 < s.x1 { s.x1 - s.x0 } else { 0 }) as nat, |i: int| LayerEdge { horizontal: true, layer: s.layer, x: (s.x0 + i) as i32, y: s.y0 })
    } else if s.x0 == s.x1 {
        Seq::new((if s.y0 < s.y1 { s.y1 - s.y0 } else { 0 }) as nat, |i: int| LayerEdge { horizontal: false, layer: s.layer, x: s.x0, y: (s.y0 + i) as i32 })
    } else {
        Seq::empty()
    }
}

/// The edges of the first `n` spans.
pub open spec fn spans_edges(spans: Seq<TileSpan>, n: int) -> Seq<LayerEdge>
    decreases n,
{
    if n <= 0 { Seq::empty() } else { spans_edges(spans, n - 1) + span_edges(spans[n - 1]) }
}

/// The edges that a route's wires take, in order; its vias take none.
pub fn wire_edges(spans: &Vec<TileSpan>) -> (out: Vec<LayerEdge>)
    ensures
        out@ == spans_edges(spans@, spans@.len() as int),
{
    let mut out: Vec<LayerEdge> = Vec::new();
    let mut k: usize = 0;
    while k < spans.len()
        invariant
            k <= spans@.len(),
            out@ == spans_edges(spans@, k as int),
        decreases spans@.len() - k,
    {
        let s = spans[k];
        let ghost before = out@;
        if s.y0 == s.y1 {
            let mut x: i32 = s.x0;
            assert(out@ =~= before + span_edges(s).take(0));
            while x < s.x1
                invariant
                    s.y0 == s.y1,
                    s.x0 <= x,
                    x <= s.x1 || x == s.x0,
                    out@ == before + span_edges(s).take(x - s.x0),
                decreases s.x1 - x,
            {
                out.push(LayerEdge { horizontal: true, layer: s.layer, x, y: s.y0 });
                x += 1;
                assert(out@ =~= before + span_edges(s).take(x - s.x0));
            }
            assert(span_edges(s).take(x - s.x0) =~= span_edges(s));
        } else if s.x0 == s.x1 {
            let mut y: i32 = s.y0;
            assert(out@ =~= before + span_edges(s).take(0));
            while y < s.y1
                invariant
                    s.y0 != s.y1,
                    s.x0 == s.x1,
                    s.y0 <= y,
                    y <= s.y1 || y == s.y0,
                    out@ == before + span_edges(s).take(y - s.y0),
                decreases s.y1 - y,
            {
                out.push(LayerEdge { horizontal: false, layer: s.layer, x: s.x0, y });
                y += 1;
                assert(out@ =~= before + span_edges(s).take(y - s.y0));
            }
            assert(span_edges(s).take(y - s.y0) =~= span_edges(s));
        } else {
            assert(out@ =~= before + span_edges(s));
        }
        k += 1;
    }
    out
}

/// The edge of one step of a path: none where the layer changes, a vertical one within a column, a horizontal
/// one within a row.
pub open spec fn step_edge(p: Point3D, q: Point3D) -> Option<LayerEdge> {
    if p.layer != q.layer {
        None
    } else if p.x == q.x {
        Some(LayerEdge { horizontal: false, layer: p.layer as usize, x: p.x as i32, y: (if p.y < q.y { p.y } else { q.y }) as i32 })
    } else if p.y == q.y {
        Some(LayerEdge { horizontal: true, layer: p.layer as usize, x: (if p.x < q.x { p.x } else { q.x }) as i32, y: p.y as i32 })
    } else {
        None
    }
}

/// The edges of a path's first `n` steps.
pub open spec fn path_edges(grids: Seq<Point3D>, n: int) -> Seq<LayerEdge>
    decreases n,
{
    if n <= 0 {
        Seq::empty()
    } else {
        match step_edge(grids[n - 1], grids[n]) {
            Some(e) => path_edges(grids, n - 1).push(e),
            None => path_edges(grids, n - 1),
        }
    }
}

/// The edges of the first `n` paths of a tree.
pub open spec fn tree_edges(edges: Seq<Edge3D>, n: int) -> Seq<LayerEdge>
    decreases n,
{
    if n <= 0 { Seq::empty() } else { tree_edges(edges, n - 1) + path_edges(edges[n - 1].grids@, edges[n - 1].routelen as int) }
}

/// Whether a tree's paths have their points, on layers from 0.
pub open spec fn paths_fit(edges: Seq<Edge3D>) -> bool {
    forall|k: int| 0 <= k < edges.len() ==> {
        &&& (#[trigger] edges[k]).routelen > 0 ==> edges[k].routelen < edges[k].grids@.len()
        &&& forall|i: int| 0 <= i < edges[k].grids@.len() ==> (#[trigger] edges[k].grids@[i]).layer >= 0
    }
}

/// The edges that a tree takes, in order.
pub fn taken_edges(edges: &Vec<Edge3D>) -> (out: Vec<LayerEdge>)
    requires
        paths_fit(edges@),
    ensures
        out@ == tree_edges(edges@, edges@.len() as int),
{
    let mut out: Vec<LayerEdge> = Vec::new();
    let mut k: usize = 0;
    while k < edges.len()
        invariant
            k <= edges@.len(),
            paths_fit(edges@),
            out@ == tree_edges(edges@, k as int),
        decreases edges@.len() - k,
    {
        let e = &edges[k];
        let ghost before = out@;
        let steps: usize = if e.routelen > 0 { e.routelen as usize } else { 0 };
        let mut i: usize = 0;
        assert(out@ =~= before + path_edges(e.grids@, 0));
        while i < steps
            invariant
                k < edges@.len(),
                *e == edges@[k as int],
                paths_fit(edges@),
                i <= steps,
                steps == (if e.routelen > 0 { e.routelen as int } else { 0 }),
                steps > 0 ==> steps < e.grids@.len(),
                out@ == before + path_edges(e.grids@, i as int),
            decreases steps - i,
        {
            let (p, q) = (e.grids[i], e.grids[i + 1]);
            assert(e.grids@[i as int].layer >= 0);
            if p.layer == q.layer {
                if p.x == q.x {
                    let y: i16 = if p.y < q.y { p.y } else { q.y };
                    out.push(LayerEdge { horizontal: false, layer: p.layer as usize, x: p.x as i32, y: y as i32 });
                } else if p.y == q.y {
                    let x: i16 = if p.x < q.x { p.x } else { q.x };
                    out.push(LayerEdge { horizontal: true, layer: p.layer as usize, x: x as i32, y: p.y as i32 });
                }
            }
            i += 1;
            assert(out@ =~= before + path_edges(e.grids@, i as int));
        }
        assert(path_edges(e.grids@, steps as int) =~= path_edges(e.grids@, e.routelen as int));
        k += 1;
    }
    out
}

// ---- charging ----

/// A number wrapped to 16 bits.
pub open spec fn wrapped(v: int) -> u16 {
    (v % 0x1_0000) as u16
}

/// How often an edge is among the first `n`.
pub open spec fn times(edges: Seq<LayerEdge>, e: LayerEdge, n: int) -> int
    decreases n,
{
    if n <= 0 { 0 } else { times(edges, e, n - 1) + (if edges[n - 1] == e { 1int } else { 0 }) }
}

/// The cost of an edge on a layer; 1 past the costs.
pub open spec fn cost_at(costs: Seq<i8>, layer: int) -> int {
    if layer < costs.len() { costs[layer] as int } else { 1 }
}

/// Whether edges are on the grid.
pub open spec fn edges_in(edges: Seq<LayerEdge>, layers: int, columns: int, rows: int) -> bool {
    forall|k: int| 0 <= k < edges.len() ==> (#[trigger] edges[k]).layer < layers && 0 <= edges[k].x < columns && 0 <= edges[k].y < rows
}

/// What an edge is charged with.
pub open spec fn usage_of(g: Graph3d, e: LayerEdge) -> u16 {
    let i = at2(e.x as int, e.y as int, g.x_grid as int);
    if e.horizontal { g.h_usage@[e.layer as int]@[i] } else { g.v_usage@[e.layer as int]@[i] }
}

/// Wraps a number to 16 bits.
pub fn wrap(v: i64) -> (r: u16)
    ensures
        r == wrapped(v as int),
{
    let t: i64 = v % 0x1_0000;
    let t: i64 = if t < 0 { t + 0x1_0000 } else { t };
    proof {
        assert(t == v as int % 0x1_0000);
    }
    t as u16
}

/// Charges each edge as often as it occurs with its layer's cost, taken `used` times; a negative number takes
/// back. The charges have 16 bits and wrap.
pub fn charge_edges(g: &mut Graph3d, rows: usize, edges: &Vec<LayerEdge>, costs: &Vec<i8>, used: i32)
    requires
        old(g).wf(rows as int),
        edges_in(edges@, old(g).num_layers as int, old(g).x_grid as int, rows as int),
    ensures
        final(g).wf(rows as int),
        final(g).x_grid == old(g).x_grid,
        final(g).num_layers == old(g).num_layers,
        final(g).h_cap == old(g).h_cap,
        final(g).v_cap == old(g).v_cap,
        forall|e: LayerEdge| e.layer < old(g).num_layers && 0 <= e.x < old(g).x_grid && 0 <= e.y < rows ==> #[trigger] usage_of(*final(g), e) == wrapped(
            usage_of(*old(g), e) + used * cost_at(costs@, e.layer as int) * times(edges@, e, edges@.len() as int)),
{
    let ghost g0 = *g;
    let mut k: usize = 0;
    assert forall|e: LayerEdge| e.layer < g0.num_layers && 0 <= e.x < g0.x_grid && 0 <= e.y < rows implies #[trigger] usage_of(*g, e) == wrapped(
        usage_of(g0, e) + used * cost_at(costs@, e.layer as int) * times(edges@, e, 0)) by {
        assert(used * cost_at(costs@, e.layer as int) * 0 == 0) by (nonlinear_arith);
        assert(usage_of(g0, e) as int % 0x1_0000 == usage_of(g0, e));
    }
    while k < edges.len()
        invariant
            k <= edges@.len(),
            g0.wf(rows as int),
            g.wf(rows as int),
            g.x_grid == g0.x_grid,
            g.num_layers == g0.num_layers,
            g.h_cap == g0.h_cap,
            g.v_cap == g0.v_cap,
            edges_in(edges@, g0.num_layers as int, g0.x_grid as int, rows as int),
            forall|e: LayerEdge| e.layer < g0.num_layers && 0 <= e.x < g0.x_grid && 0 <= e.y < rows ==> #[trigger] usage_of(*g, e) == wrapped(
                usage_of(g0, e) + used * cost_at(costs@, e.layer as int) * times(edges@, e, k as int)),
        decreases edges@.len() - k,
    {
        let e = edges[k];
        let ghost g1 = *g;
        let ghost i = at2(e.x as int, e.y as int, g.x_grid as int);
        assert(edges@[k as int].layer < g0.num_layers);
        proof {
            lemma_at2(e.x as int, e.y as int, g.x_grid as int, rows as int);
        }
        let at: usize = g.at(e.x, e.y);
        let cost: i8 = if e.layer < costs.len() { costs[e.layer] } else { 1 };
        assert(-0x4000_0000_0000 <= used * cost <= 0x4000_0000_0000) by (nonlinear_arith)
            requires
                -0x8000_0000 <= used <= 0x7fff_ffff,
                -128 <= cost <= 127,
        ;
        let by: i64 = used as i64 * cost as i64;
        if e.horizontal {
            let now: u16 = g.h_usage[e.layer][at];
            g.h_usage[e.layer].set(at, wrap(now as i64 + by));
        } else {
            let now: u16 = g.v_usage[e.layer][at];
            g.v_usage[e.layer].set(at, wrap(now as i64 + by));
        }
        k += 1;
        proof {
            assert forall|f: LayerEdge| f.layer < g0.num_layers && 0 <= f.x < g0.x_grid && 0 <= f.y < rows implies #[trigger] usage_of(*g, f) == wrapped(
                usage_of(g0, f) + used * cost_at(costs@, f.layer as int) * times(edges@, f, k as int)) by {
                let c = used * cost_at(costs@, f.layer as int);
                let t = times(edges@, f, k - 1);
                let a = usage_of(g0, f) as int;
                assert(usage_of(g1, f) == wrapped(a + c * t));
                lemma_at2(f.x as int, f.y as int, g0.x_grid as int, rows as int);
                if f == e {
                    assert(usage_of(*g, f) == wrapped(usage_of(g1, f) + c));
                    assert(c * (t + 1) == c * t + c) by (nonlinear_arith);
                    vstd::arithmetic::div_mod::lemma_add_mod_noop(a + c * t, c, 0x1_0000);
                    vstd::arithmetic::div_mod::lemma_add_mod_noop((a + c * t) % 0x1_0000, c, 0x1_0000);
                    vstd::arithmetic::div_mod::lemma_mod_twice(a + c * t, 0x1_0000);
                } else {
                    if at2(f.x as int, f.y as int, g0.x_grid as int) == at2(e.x as int, e.y as int, g0.x_grid as int) {
                        lemma_at2_injective(f.x as int, f.y as int, e.x as int, e.y as int, g0.x_grid as int, rows as int);
                    }
                    assert(usage_of(*g, f) == usage_of(g1, f));
                }
            }
        }
    }
}

/// Charging edges and taking them back leaves what was there.
pub proof fn taking_back_restores(before: u16, cost: int, n: int)
    ensures
        wrapped(wrapped(before + cost * n) + (-cost) * n) == before,
{
    let a = before + cost * n;
    assert((-cost) * n == -(cost * n)) by (nonlinear_arith);
    vstd::arithmetic::div_mod::lemma_add_mod_noop(a % 0x1_0000, -(cost * n), 0x1_0000);
    vstd::arithmetic::div_mod::lemma_add_mod_noop(a, -(cost * n), 0x1_0000);
    vstd::arithmetic::div_mod::lemma_mod_twice(a, 0x1_0000);
    assert(before as int % 0x1_0000 == before);
}

// ---- the router's grids ----

/// The router's plane: what each edge has lost and what it has left, row by row with a column to spare.
#[derive(Debug)]
pub struct PlaneGrids {
    pub red_h: Vec<u16>,
    pub red_v: Vec<u16>,
    pub cap_h: Vec<u16>,
    pub cap_v: Vec<u16>,
}

/// An edge of the plane as the setup left it; nothing past the last column or row.
pub open spec fn plane_edge(e: RouterEdges, horizontal: bool, x: int, y: int) -> EdgeState {
    if horizontal && x + 1 < e.x_grid {
        e.h2@[at2(x, y, e.x_grid - 1)]
    } else if !horizontal && y + 1 < e.y_grid {
        e.v2@[at2(x, y, e.x_grid as int)]
    } else {
        EdgeState { cap: 0, red: 0, real_cap: 0 }
    }
}

/// Whether grids hold the plane's edges.
pub open spec fn holds_plane(g: PlaneGrids, e: RouterEdges) -> bool {
    let (xg, yg) = (e.x_grid as int, e.y_grid as int);
    &&& g.red_h@.len() == yg * xg && g.red_v@.len() == yg * xg && g.cap_h@.len() == yg * xg && g.cap_v@.len() == yg * xg
    &&& forall|x: int, y: int| 0 <= x < xg && 0 <= y < yg ==> {
        let i = #[trigger] at2(x, y, xg);
        &&& g.red_h@[i] == plane_edge(e, true, x, y).red
        &&& g.cap_h@[i] == plane_edge(e, true, x, y).cap
        &&& g.red_v@[i] == plane_edge(e, false, x, y).red
        &&& g.cap_v@[i] == plane_edge(e, false, x, y).cap
    }
}

/// Lays the plane's edges out for the router.
pub fn plane_grids(e: &RouterEdges) -> (g: PlaneGrids)
    requires
        e.wf(),
    ensures
        holds_plane(g, *e),
{
    let (xg, yg) = (e.x_grid, e.y_grid);
    let (total_h, total_v): (usize, usize) = (e.h2.len(), e.v2.len());
    let mut g = PlaneGrids { red_h: Vec::new(), red_v: Vec::new(), cap_h: Vec::new(), cap_v: Vec::new() };
    let mut y: i32 = 0;
    assert(0 * xg == 0);
    while y < yg
        invariant
            e.wf(),
            total_h == e.h2@.len(),
            total_v == e.v2@.len(),
            xg == e.x_grid,
            yg == e.y_grid,
            0 <= y <= yg,
            g.red_h@.len() == y * xg && g.red_v@.len() == y * xg && g.cap_h@.len() == y * xg && g.cap_v@.len() == y * xg,
            forall|x: int, r: int| 0 <= x < xg && 0 <= r < y ==> {
                let i = #[trigger] at2(x, r, xg as int);
                &&& g.red_h@[i] == plane_edge(*e, true, x, r).red
                &&& g.cap_h@[i] == plane_edge(*e, true, x, r).cap
                &&& g.red_v@[i] == plane_edge(*e, false, x, r).red
                &&& g.cap_v@[i] == plane_edge(*e, false, x, r).cap
            },
        decreases yg - y,
    {
        let ghost base = y * xg;
        let mut x: i32 = 0;
        while x < xg
            invariant
                e.wf(),
                total_h == e.h2@.len(),
                total_v == e.v2@.len(),
                xg == e.x_grid,
                yg == e.y_grid,
                0 <= y < yg,
                0 <= x <= xg,
                base == y * xg,
                g.red_h@.len() == base + x && g.red_v@.len() == base + x && g.cap_h@.len() == base + x && g.cap_v@.len() == base + x,
                forall|c: int, r: int| 0 <= c < xg && 0 <= r <= y && (r < y || c < x) ==> {
                    let i = #[trigger] at2(c, r, xg as int);
                    &&& g.red_h@[i] == plane_edge(*e, true, c, r).red
                    &&& g.cap_h@[i] == plane_edge(*e, true, c, r).cap
                    &&& g.red_v@[i] == plane_edge(*e, false, c, r).red
                    &&& g.cap_v@[i] == plane_edge(*e, false, c, r).cap
                },
            decreases xg - x,
        {
            let ghost g0 = g;
            let h: EdgeState = if x < xg - 1 {
                proof {
                    lemma_at2(x as int, y as int, xg - 1, yg as int);
                }
                e.h2[y as usize * (xg - 1) as usize + x as usize]
            } else {
                EdgeState { cap: 0, red: 0, real_cap: 0 }
            };
            let v: EdgeState = if y < yg - 1 {
                proof {
                    lemma_at2(x as int, y as int, xg as int, yg - 1);
                }
                e.v2[y as usize * xg as usize + x as usize]
            } else {
                EdgeState { cap: 0, red: 0, real_cap: 0 }
            };
            g.red_h.push(h.red);
            g.cap_h.push(h.cap);
            g.red_v.push(v.red);
            g.cap_v.push(v.cap);
            proof {
                assert forall|c: int, r: int| 0 <= c < xg && 0 <= r <= y && (r < y || c < x + 1) implies {
                    let i = #[trigger] at2(c, r, xg as int);
                    &&& g.red_h@[i] == plane_edge(*e, true, c, r).red
                    &&& g.cap_h@[i] == plane_edge(*e, true, c, r).cap
                    &&& g.red_v@[i] == plane_edge(*e, false, c, r).red
                    &&& g.cap_v@[i] == plane_edge(*e, false, c, r).cap
                } by {
                    if r == y && c == x {
                        assert(at2(c, r, xg as int) == base + x);
                    } else if r < y {
                        lemma_at2(c, r, xg as int, y as int);
                    } else {
                        assert(at2(c, r, xg as int) == base + c);
                    }
                }
            }
            x += 1;
        }
        assert((y + 1) * xg == base + xg) by (nonlinear_arith)
            requires
                base == y * xg,
        ;
        y += 1;
    }
    g
}

/// The capacities of one layer, row by row.
pub open spec fn layer_caps(v: Seq<EdgeState>, l: int, xg: int, yg: int) -> Seq<i32> {
    Seq::new((yg * xg) as nat, |i: int| v[l * (yg * xg) + i].cap as i32)
}

fn one_layer(v: &Vec<EdgeState>, l: usize, cells: usize) -> (out: Vec<i32>)
    requires
        (l + 1) * cells <= v@.len(),
    ensures
        out@ == Seq::new(cells as nat, |i: int| v@[l * cells + i].cap as i32),
{
    assert((l + 1) * cells == l * cells + cells) by (nonlinear_arith);
    let total: usize = v.len();
    let mut out: Vec<i32> = Vec::new();
    let mut i: usize = 0;
    while i < cells
        invariant
            i <= cells,
            total == v@.len(),
            l * cells + cells <= total,
            0 <= l * cells,
            out@ == Seq::new(i as nat, |i: int| v@[l * cells + i].cap as i32),
        decreases cells - i,
    {
        out.push(v[l * cells + i].cap as i32);
        i += 1;
        assert(out@ =~= Seq::new(i as nat, |i: int| v@[l * cells + i].cap as i32));
    }
    out
}

/// The capacities in space, layer by layer.
pub fn caps_3d(e: &RouterEdges) -> (c: Caps3D)
    requires
        e.wf(),
    ensures
        c.x_grid == e.x_grid,
        c.layers@.len() == e.num_layers,
        forall|l: int| 0 <= l < e.num_layers ==> (#[trigger] c.layers@[l]).h@ == layer_caps(e.h3@, l, e.x_grid as int, e.y_grid as int)
            && c.layers@[l].v@ == layer_caps(e.v3@, l, e.x_grid as int, e.y_grid as int),
{
    let (xg, yg, nl) = (e.x_grid, e.y_grid, e.num_layers);
    assert(0 <= yg * xg) by (nonlinear_arith)
        requires
            xg >= 0,
            yg >= 0,
    ;
    let cells: usize = yg as usize * xg as usize;
    let mut layers: Vec<CapLayer> = Vec::new();
    let mut l: i32 = 0;
    while l < nl
        invariant
            e.wf(),
            (xg, yg, nl) == (e.x_grid, e.y_grid, e.num_layers),
            cells == yg * xg,
            0 <= l <= nl,
            layers@.len() == l,
            forall|k: int| 0 <= k < l ==> (#[trigger] layers@[k]).h@ == layer_caps(e.h3@, k, xg as int, yg as int) && layers@[k].v@ == layer_caps(e.v3@, k, xg as int, yg as int),
        decreases nl - l,
    {
        assert((l + 1) * cells <= nl * yg * xg) by (nonlinear_arith)
            requires
                cells == yg * xg,
                0 <= l + 1 <= nl,
                0 <= cells,
        ;
        let h = one_layer(&e.h3, l as usize, cells);
        let v = one_layer(&e.v3, l as usize, cells);
        assert(h@ =~= layer_caps(e.h3@, l as int, xg as int, yg as int));
        assert(v@ =~= layer_caps(e.v3@, l as int, xg as int, yg as int));
        layers.push(CapLayer { h, v });
        l += 1;
    }
    Caps3D { x_grid: xg as usize, layers }
}

/// A route takes the edges of each of its spans, span by span.
pub proof fn a_route_takes_the_edges_of_all_its_spans(spans: Seq<TileSpan>, n: int)
    requires
        0 <= n,
    ensures
        spans_edges(spans, n) == all_of(
            n,
            |k: int| span_edges(spans[k]),
        ),
    decreases n,
{
    let f = |k: int| span_edges(spans[k]);
    if n > 0 {
        a_route_takes_the_edges_of_all_its_spans(spans, n - 1);
        lemma_all_next(n - 1, f);
    } else {
        lemma_all_none(f);
    }
    assert(spans_edges(spans, n) =~= all_of(n, f));
}

/// A path takes the edge of each of its steps that moves, in order.
pub proof fn a_path_takes_the_edges_of_its_steps(grids: Seq<Point3D>, n: int)
    requires
        0 <= n,
    ensures
        path_edges(grids, n) == all_of(
            n,
            |k: int| if step_edge(grids[k], grids[k + 1]) is Some { seq![step_edge(grids[k], grids[k + 1])->Some_0] } else { Seq::empty() },
        ),
    decreases n,
{
    let f = |k: int| if step_edge(grids[k], grids[k + 1]) is Some { seq![step_edge(grids[k], grids[k + 1])->Some_0] } else { Seq::empty() };
    if n > 0 {
        a_path_takes_the_edges_of_its_steps(grids, n - 1);
        lemma_all_next(n - 1, f);
    } else {
        lemma_all_none(f);
    }
    assert(path_edges(grids, n) =~= all_of(n, f));
}

/// A tree takes the edges of each of its paths, path by path.
pub proof fn a_tree_takes_the_edges_of_all_its_paths(edges: Seq<Edge3D>, n: int)
    requires
        0 <= n,
    ensures
        tree_edges(edges, n) == all_of(
            n,
            |k: int| path_edges(edges[k].grids@, edges[k].routelen as int),
        ),
    decreases n,
{
    let f = |k: int| path_edges(edges[k].grids@, edges[k].routelen as int);
    if n > 0 {
        a_tree_takes_the_edges_of_all_its_paths(edges, n - 1);
        lemma_all_next(n - 1, f);
    } else {
        lemma_all_none(f);
    }
    assert(tree_edges(edges, n) =~= all_of(n, f));
}

/// An edge is taken as often as it is listed.
pub proof fn an_edge_is_taken_as_often_as_it_is_listed(edges: Seq<LayerEdge>, e: LayerEdge, n: int)
    requires
        0 <= n,
    ensures
        times(edges, e, n) == count_of(
            n,
            |k: int| edges[k] == e,
        ),
    decreases n,
{
    let f = |k: int| edges[k] == e;
    if n > 0 {
        an_edge_is_taken_as_often_as_it_is_listed(edges, e, n - 1);
        lemma_count_next(n - 1, f);
    } else {
        lemma_count_none(f);
    }
}

/// A step takes the edge between its two points, whichever way it is walked, and a via takes none.
pub proof fn a_step_takes_one_edge_both_ways(p: Point3D, q: Point3D)
    requires
        p != q,
    ensures
        step_edge(p, q) == step_edge(q, p),
        step_edge(p, q) is Some <==> p.layer == q.layer && (p.x == q.x || p.y == q.y),
        step_edge(p, q) matches Some(e) ==> e.horizontal == (p.y == q.y) && (e.x == p.x && e.y == p.y || e.x == q.x && e.y == q.y),
{
}

} // verus!
