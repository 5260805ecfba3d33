//! Layer assignment after the congestion loop: the resources that each step of an edge finds, what
//! the chosen layers leave on the nodes and on the grid, and the order in which edges are taken.

use crate::lists::{all_of, lemma_all_next, lemma_all_none, lemma_sum_next, lemma_sum_none, sum_of};
use vstd::prelude::*;
use vstd::string::StringExecFns;

use crate::brk_rsmt::{RouteKind, TreeRoute};
use crate::checks3d::{excess_max, excess_sum, get_overflow_3d, usage_sum, Cell3D, Overflow3D};
use crate::full3d::{convert_edge_to_full_3d, full_path, steps, Edge3D, Point3D, RouteType};
use crate::graph2d::CellSet;
use crate::grids::{at2, fits, lemma_at2};
use crate::text::{dec, push_int, push_nat, dec_nat};

verus! {

/// The edges in space: capacity and usage per layer, row by row. Usage wraps.
#[derive(Debug)]
pub struct Graph3d {
    pub x_grid: usize,
    pub num_layers: usize,
    pub h_cap: Vec<Vec<u16>>,
    pub v_cap: Vec<Vec<u16>>,
    pub h_usage: Vec<Vec<u16>>,
    pub v_usage: Vec<Vec<u16>>,
}

/// Whether a table has a number of layers of a size each.
pub open spec fn table_fits(t: Seq<Vec<u16>>, layers: int, cells: int) -> bool {
    &&& t.len() == layers
    &&& forall|l: int| 0 <= l < layers ==> (#[trigger] t[l])@.len() == cells
}

impl Graph3d {
    /// Whether the tables have a number of rows on each layer.
    pub open spec fn wf(&self, rows: int) -> bool {
        &&& table_fits(self.h_cap@, self.num_layers as int, rows * self.x_grid)
        &&& table_fits(self.v_cap@, self.num_layers as int, rows * self.x_grid)
        &&& table_fits(self.h_usage@, self.num_layers as int, rows * self.x_grid)
        &&& table_fits(self.v_usage@, self.num_layers as int, rows * self.x_grid)
        &&& rows * self.x_grid <= usize::MAX
    }

    /// The place of a cell in a layer.
    pub fn at(&self, x: i32, y: i32) -> (i: usize)
        requires
            x >= 0,
            y >= 0,
            at2(x as int, y as int, self.x_grid as int) <= usize::MAX,
        ensures
            i == at2(x as int, y as int, self.x_grid as int),
    {
        assert(0 <= y * self.x_grid) by (nonlinear_arith)
            requires
                y >= 0,
        ;
        y as usize * self.x_grid + x as usize
    }
}

// ---- overflow in space ----

/// A cell of a layer as the overflow scan reads it.
pub open spec fn cell_at(g: Graph3d, l: int, c: (i32, i32), horizontal: bool) -> Cell3D {
    let i = at2(c.0 as int, c.1 as int, g.x_grid as int);
    Cell3D {
        horizontal,
        usage: (if horizontal { g.h_usage@[l]@[i] } else { g.v_usage@[l]@[i] }) as i32,
        capacity: (if horizontal { g.h_cap@[l]@[i] } else { g.v_cap@[l]@[i] }) as i32,
    }
}

/// The used cells of the first `n` layers: on each the horizontal ones, then the vertical ones.
pub open spec fn cells_upto(g: Graph3d, used_h: Seq<(i32, i32)>, used_v: Seq<(i32, i32)>, n: int) -> Seq<Cell3D>
    decreases n,
{
    if n <= 0 {
        Seq::empty()
    } else {
        cells_upto(g, used_h, used_v, n - 1) + used_h.map_values(|c: (i32, i32)| cell_at(g, n - 1, c, true)) + used_v.map_values(
            |c: (i32, i32)| cell_at(g, n - 1, c, false),
        )
    }
}

/// Whether every cell of a list is on the grid.
pub open spec fn on_grid(cells: Seq<(i32, i32)>, columns: int, rows: int) -> bool {
    forall|k: int| 0 <= k < cells.len() ==> 0 <= (#[trigger] cells[k]).0 < columns && 0 <= cells[k].1 < rows
}

fn push_cells(g: &Graph3d, l: usize, used: &Vec<(i32, i32)>, horizontal: bool, out: &mut Vec<Cell3D>, Ghost(rows): Ghost<int>)
    requires
        g.wf(rows),
        l < g.num_layers,
        on_grid(used@, g.x_grid as int, rows),
    ensures
        final(out)@ == old(out)@ + used@.map_values(|c: (i32, i32)| cell_at(*g, l as int, c, horizontal)),
{
    let ghost out0 = out@;
    let mut k: usize = 0;
    while k < used.len()
        invariant
            k <= used@.len(),
            g.wf(rows),
            l < g.num_layers,
            on_grid(used@, g.x_grid as int, rows),
            out@ == out0 + used@.take(k as int).map_values(|c: (i32, i32)| cell_at(*g, l as int, c, horizontal)),
        decreases used@.len() - k,
    {
        let (x, y) = used[k];
        proof {
            assert(0 <= used@[k as int].0 < g.x_grid);
            lemma_at2(x as int, y as int, g.x_grid as int, rows);
        }
        let i: usize = g.at(x, y);
        let (usage, capacity) = if horizontal {
            (g.h_usage[l][i] as i32, g.h_cap[l][i] as i32)
        } else {
            (g.v_usage[l][i] as i32, g.v_cap[l][i] as i32)
        };
        out.push(Cell3D { horizontal, usage, capacity });
        k += 1;
        assert(out@ =~= out0 + used@.take(k as int).map_values(|c: (i32, i32)| cell_at(*g, l as int, c, horizontal)));
    }
    assert(used@.take(k as int) =~= used@);
}

/// The overflow of every layer over the used cells of the plane, in their order.
pub fn get_overflow_3d_all(used_h: &CellSet, used_v: &CellSet, g3: &Graph3d, rows: usize) -> (out: Overflow3D)
    requires
        g3.wf(rows as int),
        on_grid(used_h.cells@, g3.x_grid as int, rows as int),
        on_grid(used_v.cells@, g3.x_grid as int, rows as int),
        ({
            let cells = cells_upto(*g3, used_h.cells@, used_v.cells@, g3.num_layers as int);
            &&& forall|n: int| 0 <= n <= cells.len() ==> fits(#[trigger] usage_sum(cells, n))
            &&& forall|n: int| 0 <= n <= cells.len() ==> fits(#[trigger] excess_sum(cells, true, n))
            &&& forall|n: int| 0 <= n <= cells.len() ==> fits(#[trigger] excess_sum(cells, false, n))
            &&& fits(excess_sum(cells, true, cells.len() as int) + excess_sum(cells, false, cells.len() as int))
        }),
    ensures
        ({
            let cells = cells_upto(*g3, used_h.cells@, used_v.cells@, g3.num_layers as int);
            let n = cells.len() as int;
            &&& out.horizontal == excess_sum(cells, true, n)
            &&& out.vertical == excess_sum(cells, false, n)
            &&& out.max_horizontal == excess_max(cells, true, n)
            &&& out.max_vertical == excess_max(cells, false, n)
            &&& out.total == out.horizontal + out.vertical
            &&& out.total_usage == usage_sum(cells, n)
        }),
{
    let mut cells: Vec<Cell3D> = Vec::new();
    let mut l: usize = 0;
    while l < g3.num_layers
        invariant
            l <= g3.num_layers,
            g3.wf(rows as int),
            on_grid(used_h.cells@, g3.x_grid as int, rows as int),
            on_grid(used_v.cells@, g3.x_grid as int, rows as int),
            cells@ == cells_upto(*g3, used_h.cells@, used_v.cells@, l as int),
            forall|n: int| 0 <= n < cells@.len() ==> 0 <= (#[trigger] cells@[n]).usage <= 0xffff && 0 <= cells@[n].capacity <= 0xffff,
        decreases g3.num_layers - l,
    {
        push_cells(g3, l, &used_h.cells, true, &mut cells, Ghost(rows as int));
        push_cells(g3, l, &used_v.cells, false, &mut cells, Ghost(rows as int));
        l += 1;
    }
    get_overflow_3d(cells.as_slice())
}

// ---- the resources of an edge ----

/// Whether a step goes up or down.
pub open spec fn is_upright(grids: Seq<(i32, i32)>, k: int) -> bool {
    grids[k].0 == grids[k + 1].0
}

/// The place of the edge that a step takes.
pub open spec fn step_place(grids: Seq<(i32, i32)>, k: int, columns: int) -> int {
    let (a, b) = (grids[k], grids[k + 1]);
    if is_upright(grids, k) {
        at2(a.0 as int, (if a.1 < b.1 { a.1 } else { b.1 }) as int, columns)
    } else {
        at2((if a.0 < b.0 { a.0 } else { b.0 }) as int, a.1 as int, columns)
    }
}

/// What is free on a layer at the edge that a step takes.
pub open spec fn step_resource(g: Graph3d, grids: Seq<(i32, i32)>, l: int, k: int) -> int {
    let i = step_place(grids, k, g.x_grid as int);
    if is_upright(grids, k) { g.v_cap@[l]@[i] - g.v_usage@[l]@[i] } else { g.h_cap@[l]@[i] - g.h_usage@[l]@[i] }
}

fn place_of(g: &Graph3d, a: (i32, i32), b: (i32, i32)) -> (r: (bool, usize))
    requires
        0 <= a.0 < g.x_grid,
        0 <= b.0 < g.x_grid,
        0 <= a.1,
        0 <= b.1,
        at2(a.0 as int, a.1 as int, g.x_grid as int) <= usize::MAX,
        at2(b.0 as int, b.1 as int, g.x_grid as int) <= usize::MAX,
        at2(b.0 as int, a.1 as int, g.x_grid as int) <= usize::MAX,
    ensures
        r.0 == (a.0 == b.0),
        r.1 == step_place(seq![a, b], 0, g.x_grid as int),
{
    if a.0 == b.0 {
        (true, g.at(a.0, if a.1 < b.1 { a.1 } else { b.1 }))
    } else {
        (false, g.at(if a.0 < b.0 { a.0 } else { b.0 }, a.1))
    }
}

/// What each step of a route finds: whether it is upright, and on every layer the capacity less the
/// usage at its edge.
pub fn edge_resources(g3: &Graph3d, grids: &Vec<(i32, i32)>, routelen: usize, rows: usize) -> (r: (Vec<bool>, Vec<Vec<i32>>))
    requires
        g3.wf(rows as int),
        routelen < grids@.len(),
        on_grid(grids@, g3.x_grid as int, rows as int),
    ensures
        r.0@ == Seq::new(routelen as nat, |k: int| is_upright(grids@, k)),
        r.1@.len() == g3.num_layers,
        forall|l: int| 0 <= l < g3.num_layers ==> (#[trigger] r.1@[l])@.len() == routelen,
        forall|l: int, k: int| 0 <= l < g3.num_layers && 0 <= k < routelen ==> #[trigger] r.1@[l]@[k] == step_resource(*g3, grids@, l, k),
{
    let mut vertical: Vec<bool> = Vec::new();
    let mut places: Vec<usize> = Vec::new();
    let mut k: usize = 0;
    while k < routelen
        invariant
            k <= routelen < grids@.len(),
            g3.wf(rows as int),
            on_grid(grids@, g3.x_grid as int, rows as int),
            vertical@.len() == k,
            places@.len() == k,
            forall|j: int| 0 <= j < k ==> #[trigger] vertical@[j] == is_upright(grids@, j),
            forall|j: int| 0 <= j < k ==> #[trigger] places@[j] == step_place(grids@, j, g3.x_grid as int) && places@[j] < rows * g3.x_grid,
        decreases routelen - k,
    {
        let (a, b) = (grids[k], grids[k + 1]);
        proof {
            assert(0 <= grids@[k as int].0 < g3.x_grid && 0 <= grids@[k + 1].0 < g3.x_grid);
            lemma_at2(a.0 as int, a.1 as int, g3.x_grid as int, rows as int);
            lemma_at2(b.0 as int, b.1 as int, g3.x_grid as int, rows as int);
            lemma_at2(b.0 as int, a.1 as int, g3.x_grid as int, rows as int);
        }
        let (up, place) = place_of(g3, a, b);
        vertical.push(up);
        places.push(place);
        k += 1;
    }
    assert(vertical@ =~= Seq::new(routelen as nat, |k: int| is_upright(grids@, k)));
    let mut resources: Vec<Vec<i32>> = Vec::new();
    let mut l: usize = 0;
    while l < g3.num_layers
        invariant
            l <= g3.num_layers,
            g3.wf(rows as int),
            vertical@ == Seq::new(routelen as nat, |k: int| is_upright(grids@, k)),
            places@.len() == routelen,
            forall|j: int| 0 <= j < routelen ==> #[trigger] places@[j] == step_place(grids@, j, g3.x_grid as int) && places@[j] < rows * g3.x_grid,
            resources@.len() == l,
            forall|m: int| 0 <= m < l ==> (#[trigger] resources@[m])@.len() == routelen,
            forall|m: int, k: int| 0 <= m < l && 0 <= k < routelen ==> #[trigger] resources@[m]@[k] == step_resource(*g3, grids@, m, k),
        decreases g3.num_layers - l,
    {
        let mut row: Vec<i32> = Vec::new();
        k = 0;
        while k < routelen
            invariant
                k <= routelen,
                l < g3.num_layers,
                g3.wf(rows as int),
                vertical@ == Seq::new(routelen as nat, |k: int| is_upright(grids@, k)),
                places@.len() == routelen,
                forall|j: int| 0 <= j < routelen ==> #[trigger] places@[j] == step_place(grids@, j, g3.x_grid as int) && places@[j] < rows * g3.x_grid,
                row@.len() == k,
                forall|j: int| 0 <= j < k ==> #[trigger] row@[j] == step_resource(*g3, grids@, l as int, j),
            decreases routelen - k,
        {
            let i: usize = places[k];
            assert(places@[k as int] < rows * g3.x_grid);
            let free: i32 = if vertical[k] {
                g3.v_cap[l][i] as i32 - g3.v_usage[l][i] as i32
            } else {
                g3.h_cap[l][i] as i32 - g3.h_usage[l][i] as i32
            };
            row.push(free);
            k += 1;
        }
        resources.push(row);
        l += 1;
    }
    (vertical, resources)
}

// ---- what the chosen layers leave behind ----

/// A node of the walk: whether it is assigned, its lowest and highest layers, and the edges that gave
/// them.
#[derive(Debug, Clone, Copy, PartialEq, Eq, Structural)]
pub struct WalkNode {
    pub assigned: bool,
    pub bot_layer: i16,
    pub top_layer: i16,
    pub l_id: i32,
    pub h_id: i32,
}

/// A node whose layers an edge's end on layer `l` widens.
pub open spec fn widened(w: WalkNode, l: i16, e: i32) -> WalkNode {
    WalkNode {
        bot_layer: if l < w.bot_layer { l } else { w.bot_layer },
        l_id: if l < w.bot_layer { e } else { w.l_id },
        top_layer: if l > w.top_layer { l } else { w.top_layer },
        h_id: if l > w.top_layer { e } else { w.h_id },
        ..w
    }
}

/// A node that an edge's end pins to layer `l`.
pub open spec fn pinned(w: WalkNode, l: i16, e: i32) -> WalkNode {
    WalkNode { bot_layer: l, top_layer: l, l_id: e, h_id: e, ..w }
}

/// The nodes after an edge's ends took their layers: the end it was taken from widens, and the far
/// end widens where it was assigned and is pinned otherwise.
pub open spec fn ends_taken(walk: Seq<WalkNode>, n1a: int, n2a: int, e: i32, first: i16, last: i16, dir: bool) -> Seq<WalkNode> {
    let (fixed, far, lf, lfar) = if dir { (n1a, n2a, first, last) } else { (n2a, n1a, last, first) };
    let w = walk.update(fixed, widened(walk[fixed], lf, e));
    w.update(far, if w[far].assigned { widened(w[far], lfar, e) } else { pinned(w[far], lfar, e) })
}

/// A table's rows as sequences.
pub open spec fn rows_of(t: Seq<Vec<u16>>) -> Seq<Seq<u16>> {
    t.map_values(|r: Vec<u16>| r@)
}

/// A table with a layer's edge charged, wrapping.
pub open spec fn charged_cell(t: Seq<Seq<u16>>, l: int, i: int, cost: int) -> Seq<Seq<u16>> {
    t.update(l, t[l].update(i, (t[l][i] + cost) as u16))
}

/// The usage, horizontal and vertical, once the first `k` steps of a route are charged: each on its
/// layer with that layer's cost.
pub open spec fn usage_after(h: Seq<Seq<u16>>, v: Seq<Seq<u16>>, grids: Seq<(i32, i32)>, layers: Seq<i16>, cost: Seq<i8>, columns: int, k: int) -> (Seq<Seq<u16>>, Seq<Seq<u16>>)
    decreases k,
{
    if k <= 0 {
        (h, v)
    } else {
        let (h1, v1) = usage_after(h, v, grids, layers, cost, columns, k - 1);
        let l = layers[k - 1] as int;
        let i = step_place(grids, k - 1, columns);
        if is_upright(grids, k - 1) { (h1, charged_cell(v1, l, i, cost[l] as int)) } else { (charged_cell(h1, l, i, cost[l] as int), v1) }
    }
}

fn widen(walk: &mut Vec<WalkNode>, n: usize, l: i16, e: i32)
    requires
        n < old(walk)@.len(),
    ensures
        final(walk)@ == old(walk)@.update(n as int, widened(old(walk)@[n as int], l, e)),
{
    let mut w = walk[n];
    if l < w.bot_layer {
        w.bot_layer = l;
        w.l_id = e;
    }
    if l > w.top_layer {
        w.top_layer = l;
        w.h_id = e;
    }
    walk[n] = w;
}

/// Takes the layers chosen for an edge's points: the layer extremes of the nodes at its ends, and the
/// usage of every step, which wraps. The far end's last layer is then within its extremes.
pub fn assign_edge(walk: &mut Vec<WalkNode>, n1a: usize, n2a: usize, eid: usize, route: &TreeRoute, dir: bool, g3: &mut Graph3d, cost: &Vec<i8>, rows: usize)
    requires
        n1a < old(walk)@.len(),
        n2a < old(walk)@.len(),
        eid <= i32::MAX,
        old(g3).wf(rows as int),
        route.routelen >= 0,
        route.routelen < route.grids@.len(),
        route.layers@.len() == route.routelen + 1,
        on_grid(route.grids@, old(g3).x_grid as int, rows as int),
        forall|k: int| 0 <= k < route.routelen ==> 0 <= (#[trigger] route.layers@[k]) < old(g3).num_layers,
        cost@.len() >= old(g3).num_layers,
    ensures
        final(walk)@ == ends_taken(old(walk)@, n1a as int, n2a as int, eid as i32, route.layers@[0], route.layers@[route.routelen as int], dir),
        dir ==> final(walk)@[n2a as int].bot_layer <= route.layers@[route.routelen as int] <= final(walk)@[n2a as int].top_layer,
        final(g3).wf(rows as int),
        final(g3).x_grid == old(g3).x_grid,
        final(g3).num_layers == old(g3).num_layers,
        final(g3).h_cap == old(g3).h_cap,
        final(g3).v_cap == old(g3).v_cap,
        (rows_of(final(g3).h_usage@), rows_of(final(g3).v_usage@)) == usage_after(
            rows_of(old(g3).h_usage@),
            rows_of(old(g3).v_usage@),
            route.grids@,
            route.layers@,
            cost@,
            old(g3).x_grid as int,
            route.routelen as int,
        ),
{
    let rl: usize = route.routelen as usize;
    let (first, last) = (route.layers[0], route.layers[rl]);
    let e: i32 = eid as i32;
    let (fixed, far, lf, lfar) = if dir { (n1a, n2a, first, last) } else { (n2a, n1a, last, first) };
    widen(walk, fixed, lf, e);
    if walk[far].assigned {
        widen(walk, far, lfar, e);
    } else {
        let mut w = walk[far];
        w.top_layer = lfar;
        w.bot_layer = lfar;
        w.l_id = e;
        w.h_id = e;
        walk[far] = w;
    }
    let ghost g0 = *g3;
    let mut k: usize = 0;
    while k < rl
        invariant
            k <= rl == route.routelen,
            rl < route.grids@.len(),
            route.layers@.len() == rl + 1,
            g0.wf(rows as int),
            g3.wf(rows as int),
            g3.x_grid == g0.x_grid,
            g3.num_layers == g0.num_layers,
            g3.h_cap == g0.h_cap,
            g3.v_cap == g0.v_cap,
            on_grid(route.grids@, g0.x_grid as int, rows as int),
            forall|k: int| 0 <= k < rl ==> 0 <= (#[trigger] route.layers@[k]) < g0.num_layers,
            cost@.len() >= g0.num_layers,
            (rows_of(g3.h_usage@), rows_of(g3.v_usage@)) == usage_after(
                rows_of(g0.h_usage@),
                rows_of(g0.v_usage@),
                route.grids@,
                route.layers@,
                cost@,
                g0.x_grid as int,
                k as int,
            ),
        decreases rl - k,
    {
        let (a, b) = (route.grids[k], route.grids[k + 1]);
        assert(0 <= route.layers@[k as int] < g0.num_layers);
        let l: usize = route.layers[k] as usize;
        proof {
            assert(0 <= route.grids@[k as int].0 < g0.x_grid && 0 <= route.grids@[k + 1].0 < g0.x_grid);
            lemma_at2(a.0 as int, a.1 as int, g3.x_grid as int, rows as int);
            lemma_at2(b.0 as int, b.1 as int, g3.x_grid as int, rows as int);
            lemma_at2(b.0 as int, a.1 as int, g3.x_grid as int, rows as int);
        }
        let (up, i) = place_of(g3, a, b);
        let ghost (h0, v0) = (g3.h_usage@, g3.v_usage@);
        assert(i == step_place(route.grids@, k as int, g0.x_grid as int));
        let c: i32 = cost[l] as i32;
        if up {
            assert(g3.v_usage@[l as int]@.len() == rows * g3.x_grid);
            let now: i32 = g3.v_usage[l][i] as i32 + c;
            g3.v_usage[l][i] = now as u16;
            assert(rows_of(g3.v_usage@) =~= charged_cell(rows_of(v0), l as int, i as int, c as int));
        } else {
            assert(g3.h_usage@[l as int]@.len() == rows * g3.x_grid);
            let now: i32 = g3.h_usage[l][i] as i32 + c;
            g3.h_usage[l][i] = now as u16;
            assert(rows_of(g3.h_usage@) =~= charged_cell(rows_of(h0), l as int, i as int, c as int));
        }
        k += 1;
    }
}

// ---- the order of the edges ----

/// The edges of a walk in the order they are taken, and which of them have been queued.
#[derive(Debug)]
pub struct EdgeQueue {
    pub queue: Vec<usize>,
    pub head: usize,
    pub queued: Vec<bool>,
}

/// Those of the first `n` edges of a list that are not queued yet, each once.
pub open spec fn fresh(edges: Seq<usize>, queued: Seq<bool>, n: int) -> Seq<usize>
    decreases n,
{
    if n <= 0 {
        Seq::empty()
    } else {
        let s = fresh(edges, queued, n - 1);
        if queued[edges[n - 1] as int] || s.contains(edges[n - 1]) { s } else { s.push(edges[n - 1]) }
    }
}

impl EdgeQueue {
    /// Whether the queue holds each edge that is marked queued, once, and no other.
    pub open spec fn wf(&self) -> bool {
        &&& self.head <= self.queue@.len()
        &&& forall|i: int| 0 <= i < self.queue@.len() ==> (#[trigger] self.queue@[i]) < self.queued@.len()
        &&& forall|i: int, j: int| 0 <= i < j < self.queue@.len() ==> #[trigger] self.queue@[i] != #[trigger] self.queue@[j]
        &&& forall|e: int| 0 <= e < self.queued@.len() ==> (#[trigger] self.queued@[e] <==> self.queue@.contains(e as usize))
    }

    /// No edge queued yet.
    pub fn new(edges: usize) -> (q: Self)
        ensures
            q.wf(),
            q.head == 0,
            q.queue@ == Seq::<usize>::empty(),
            q.queued@.len() == edges,
    {
        EdgeQueue { queue: Vec::new(), head: 0, queued: crate::vecs::filled(false, edges) }
    }

    /// Queues the edges of a node that are not queued yet.
    pub fn push_node(&mut self, edges: &Vec<usize>)
        requires
            old(self).wf(),
            forall|k: int| 0 <= k < edges@.len() ==> (#[trigger] edges@[k]) < old(self).queued@.len(),
        ensures
            final(self).wf(),
            final(self).head == old(self).head,
            final(self).queued@.len() == old(self).queued@.len(),
            final(self).queue@ == old(self).queue@ + fresh(edges@, old(self).queued@, edges@.len() as int),
    {
        let ghost (q0, m0) = (self.queue@, self.queued@);
        let mut k: usize = 0;
        while k < edges.len()
            invariant
                k <= edges@.len(),
                self.wf(),
                self.head == old(self).head,
                m0 == old(self).queued@,
                q0 == old(self).queue@,
                old(self).wf(),
                self.queued@.len() == m0.len(),
                forall|k: int| 0 <= k < edges@.len() ==> (#[trigger] edges@[k]) < m0.len(),
                self.queue@ == q0 + fresh(edges@, m0, k as int),
            decreases edges@.len() - k,
        {
            let e: usize = edges[k];
            let total: usize = self.queued.len();
            assert(edges@[k as int] < m0.len());
            let ghost s = fresh(edges@, m0, k as int);
            let ghost (q1, m1) = (self.queue@, self.queued@);
            proof {
                assert(m1[e as int] <==> q1.contains(e));
                assert(m0[e as int] <==> q0.contains(e));
                assert(q1.contains(e) <==> q0.contains(e) || s.contains(e)) by {
                    if q0.contains(e) {
                        let i = choose|i: int| 0 <= i < q0.len() && q0[i] == e;
                        assert(q1[i] == e);
                    }
                    if s.contains(e) {
                        let i = choose|i: int| 0 <= i < s.len() && s[i] == e;
                        assert(q1[q0.len() + i] == e);
                    }
                    if q1.contains(e) {
                        let i = choose|i: int| 0 <= i < q1.len() && q1[i] == e;
                        if i < q0.len() {
                            assert(q0[i] == e);
                        } else {
                            assert(s[i - q0.len()] == e);
                        }
                    }
                }
            }
            if !self.queued[e] {
                self.queue.push(e);
                self.queued[e] = true;
                proof {
                    assert(self.queue@ =~= q0 + fresh(edges@, m0, k + 1));
                    assert forall|d: int| 0 <= d < self.queued@.len() implies (#[trigger] self.queued@[d] <==> self.queue@.contains(d as usize)) by {
                        assert(m1[d] <==> q1.contains(d as usize));
                        if q1.contains(d as usize) {
                            let i = choose|i: int| 0 <= i < q1.len() && q1[i] == d as usize;
                            assert(self.queue@[i] == d as usize);
                        }
                        if d == e {
                            assert(self.queue@[q1.len() as int] == d as usize);
                        }
                        if self.queue@.contains(d as usize) && d != e {
                            let i = choose|i: int| 0 <= i < self.queue@.len() && self.queue@[i] == d as usize;
                            assert(q1[i] == d as usize);
                        }
                    }
                    assert forall|i: int, j: int| 0 <= i < j < self.queue@.len() implies #[trigger] self.queue@[i] != #[trigger] self.queue@[j] by {
                        if j == q1.len() {
                            assert(q1[i] != e) by {
                                if q1[i] == e {
                                    assert(q1.contains(e));
                                }
                            }
                        }
                    }
                }
            }
            k += 1;
        }
    }
}

/// The node from which the search goes on after an edge: the far end of the one it was taken from.
pub fn next_node(n1a: usize, n2a: usize, dir: bool) -> (r: usize)
    ensures
        r == (if dir { n2a } else { n1a }),
{
    if dir { n2a } else { n1a }
}

/// An edge's turn, and whether it is taken from its first end.
#[derive(Debug, Clone, Copy, PartialEq, Eq, Structural)]
pub struct EdgeTurn {
    pub eid: usize,
    pub dir: bool,
}

/// Which of `n` edges a queue holds.
pub open spec fn marks(queue: Seq<usize>, n: int) -> Seq<bool> {
    Seq::new(n as nat, |e: int| queue.contains(e as usize))
}

/// A queue with a node's edges that it does not hold yet behind it.
pub open spec fn with_node(queue: Seq<usize>, edges: Seq<usize>, n: int) -> Seq<usize> {
    queue + fresh(edges, marks(queue, n), edges.len() as int)
}

/// The queue once the first `t` nodes have given their edges.
pub open spec fn with_terminals(node_edges: Seq<Vec<usize>>, n: int, t: int) -> Seq<usize>
    decreases t,
{
    if t <= 0 { Seq::empty() } else { with_node(with_terminals(node_edges, n, t - 1), node_edges[t - 1]@, n) }
}

/// A search over a net's edges: the queue, which nodes are assigned, and the turns so far.
pub struct Search {
    pub queue: Seq<usize>,
    pub assigned: Seq<bool>,
    pub turns: Seq<EdgeTurn>,
}

/// What a search runs on: the edges of every node, the nodes at both ends of every edge, how many nodes are
/// terminals, and which nodes are assigned before.
pub struct SearchNet {
    pub node_edges: Seq<Vec<usize>>,
    pub ends: Seq<(usize, usize)>,
    pub terminals: int,
    pub assigned: Seq<bool>,
}

/// The node at which an edge's turn arrives.
pub open spec fn arrival(ends: (usize, usize), dir: bool) -> int {
    (if dir { ends.1 } else { ends.0 }) as int
}

/// A search after one turn more: the edge at the front is taken from its first end where that is assigned,
/// else from its second, and the node at which it arrives gives its edges the first time.
pub open spec fn turned_once(net: SearchNet, s: Search) -> Search {
    let e = s.queue[s.turns.len() as int];
    let dir = s.assigned[net.ends[e as int].0 as int];
    let at = arrival(net.ends[e as int], dir);
    Search {
        queue: if s.assigned[at] { s.queue } else { with_node(s.queue, net.node_edges[at]@, net.ends.len() as int) },
        assigned: s.assigned.update(at, true),
        turns: s.turns.push(EdgeTurn { eid: e, dir }),
    }
}

/// A search after `k` turns.
pub open spec fn searched(net: SearchNet, k: int) -> Search
    decreases k,
{
    if k <= 0 {
        Search { queue: with_terminals(net.node_edges, net.ends.len() as int, net.terminals), assigned: net.assigned, turns: Seq::empty() }
    } else {
        turned_once(net, searched(net, k - 1))
    }
}

/// Whether a net's nodes and edges name each other within range.
pub open spec fn can_search(net: SearchNet) -> bool {
    &&& 0 <= net.terminals <= net.node_edges.len()
    &&& net.assigned.len() == net.node_edges.len()
    &&& forall|n: int, k: int| 0 <= n < net.node_edges.len() && 0 <= k < net.node_edges[n]@.len() ==> (#[trigger] net.node_edges[n]@[k]) < net.ends.len()
    &&& forall|e: int| 0 <= e < net.ends.len() ==> (#[trigger] net.ends[e]).0 < net.node_edges.len() && net.ends[e].1 < net.node_edges.len()
}

/// Whether turns are all those of a search: its queue is used up with the last of them and not before.
pub open spec fn are_turns(net: SearchNet, turns: Seq<EdgeTurn>) -> bool {
    let n = turns.len() as int;
    &&& turns == searched(net, n).turns
    &&& searched(net, n).queue.len() == n
    &&& forall|k: int| 0 <= k < n ==> (#[trigger] searched(net, k)).queue.len() > k
}

/// Numbers below a bound that all differ are no more than the bound.
proof fn lemma_distinct_below(s: Seq<usize>, n: int)
    requires
        n >= 0,
        forall|i: int| 0 <= i < s.len() ==> (#[trigger] s[i]) < n,
        forall|i: int, j: int| 0 <= i < j < s.len() ==> #[trigger] s[i] != #[trigger] s[j],
    ensures
        s.len() <= n,
{
    let v = s.map_values(|e: usize| e as int);
    assert(v.no_duplicates()) by {
        assert forall|i: int, j: int| 0 <= i < v.len() && 0 <= j < v.len() && i != j implies v[i] != v[j] by {
            if i < j {
                assert(s[i] != s[j]);
            } else {
                assert(s[j] != s[i]);
            }
        }
    }
    v.unique_seq_to_set();
    let range = vstd::set_lib::set_int_range(0, n);
    vstd::set_lib::lemma_int_range(0, n);
    assert(v.to_set().subset_of(range)) by {
        assert forall|x: int| v.to_set().contains(x) implies range.contains(x) by {
            let i = choose|i: int| 0 <= i < v.len() && v[i] == x;
            assert(s[i] < n);
        }
    }
    vstd::set_lib::lemma_len_subset(v.to_set(), range);
}

/// The order in which a net's edges are given their layers: breadth first from the terminals. The layers have
/// no part in it.
pub fn edge_turns(node_edges: &Vec<Vec<usize>>, ends: &Vec<(usize, usize)>, terminals: usize, assigned: &Vec<bool>) -> (turns: Vec<EdgeTurn>)
    requires
        can_search((SearchNet { node_edges: node_edges@, ends: ends@, terminals: terminals as int, assigned: assigned@ })),
    ensures
        are_turns((SearchNet { node_edges: node_edges@, ends: ends@, terminals: terminals as int, assigned: assigned@ }), turns@),
{
    let ghost net = SearchNet { node_edges: node_edges@, ends: ends@, terminals: terminals as int, assigned: assigned@ };
    let ghost n = ends@.len() as int;
    let mut q = EdgeQueue::new(ends.len());
    let mut t: usize = 0;
    while t < terminals
        invariant
            t <= terminals,
            can_search(net),
            net == (SearchNet { node_edges: node_edges@, ends: ends@, terminals: terminals as int, assigned: assigned@ }),
            n == ends@.len(),
            q.wf(),
            q.head == 0,
            q.queued@.len() == n,
            q.queue@ == with_terminals(node_edges@, n, t as int),
        decreases terminals - t,
    {
        assert(q.queued@ =~= marks(q.queue@, n));
        q.push_node(&node_edges[t]);
        t += 1;
    }
    let mut now: Vec<bool> = crate::vecs::copy_vec(assigned);
    let mut turns: Vec<EdgeTurn> = Vec::new();
    proof {
        lemma_distinct_below(q.queue@, n);
        assert(turns@ =~= searched(net, 0).turns);
    }
    while q.head < q.queue.len()
        invariant
            can_search(net),
            net == (SearchNet { node_edges: node_edges@, ends: ends@, terminals: terminals as int, assigned: assigned@ }),
            n == ends@.len(),
            q.wf(),
            q.queued@.len() == n,
            q.queue@.len() <= n,
            turns@.len() == q.head,
            now@.len() == node_edges@.len(),
            searched(net, q.head as int) == (Search { queue: q.queue@, assigned: now@, turns: turns@ }),
            forall|k: int| 0 <= k < q.head ==> (#[trigger] searched(net, k)).queue.len() > k,
        decreases n - q.head,
    {
        let ghost s = searched(net, q.head as int);
        let eid: usize = q.queue[q.head];
        q.head += 1;
        let (a, b) = ends[eid];
        assert(net.ends[eid as int].0 < net.node_edges.len());
        let dir: bool = now[a];
        let at: usize = next_node(a, b, dir);
        turns.push(EdgeTurn { eid, dir });
        let ghost n0 = now@;
        if !now[at] {
            assert(q.queued@ =~= marks(q.queue@, n));
            q.push_node(&node_edges[at]);
            now[at] = true;
            proof {
                lemma_distinct_below(q.queue@, n);
            }
        } else {
            assert(now@ =~= now@.update(at as int, true));
        }
        assert(searched(net, q.head as int) == turned_once(net, s));
    }
    turns
}

/// What is queued was not queued before, and stands for each of the edges that were not.
proof fn lemma_fresh_holds(edges: Seq<usize>, queue: Seq<usize>, n: int, k: int)
    requires
        0 <= k <= edges.len(),
        forall|i: int| 0 <= i < edges.len() ==> (#[trigger] edges[i]) < n,
    ensures
        forall|i: int| 0 <= i < k ==> queue.contains(#[trigger] edges[i]) || fresh(edges, marks(queue, n), k).contains(edges[i]),
        forall|j: int| 0 <= j < fresh(edges, marks(queue, n), k).len() ==> (#[trigger] fresh(edges, marks(queue, n), k)[j]) < n && !queue.contains(
            fresh(edges, marks(queue, n), k)[j]),
        fresh(edges, marks(queue, n), k).no_duplicates(),
    decreases k,
{
    if k > 0 {
        lemma_fresh_holds(edges, queue, n, k - 1);
        let m = marks(queue, n);
        let (before, after) = (fresh(edges, m, k - 1), fresh(edges, m, k));
        let e = edges[k - 1];
        assert(m[e as int] == queue.contains(e));
        assert forall|i: int| 0 <= i < k implies queue.contains(#[trigger] edges[i]) || after.contains(edges[i]) by {
            if i < k - 1 && before.contains(edges[i]) {
                let j = choose|j: int| 0 <= j < before.len() && before[j] == edges[i];
                assert(after[j] == edges[i]);
            }
            if i == k - 1 && !queue.contains(e) && !before.contains(e) {
                assert(after.last() == e);
            }
        }
    }
}

/// A queue that all differ keeps so when a node gives its edges, keeps its front, and then holds them all.
proof fn lemma_with_node(queue: Seq<usize>, edges: Seq<usize>, n: int)
    requires
        queue.no_duplicates(),
        forall|i: int| 0 <= i < queue.len() ==> (#[trigger] queue[i]) < n,
        forall|i: int| 0 <= i < edges.len() ==> (#[trigger] edges[i]) < n,
    ensures
        with_node(queue, edges, n).no_duplicates(),
        queue.len() <= with_node(queue, edges, n).len(),
        forall|i: int| 0 <= i < queue.len() ==> #[trigger] with_node(queue, edges, n)[i] == queue[i],
        forall|i: int| 0 <= i < with_node(queue, edges, n).len() ==> (#[trigger] with_node(queue, edges, n)[i]) < n,
        forall|i: int| 0 <= i < edges.len() ==> with_node(queue, edges, n).contains(#[trigger] edges[i]),
{
    lemma_fresh_holds(edges, queue, n, edges.len() as int);
    let f = fresh(edges, marks(queue, n), edges.len() as int);
    let w = with_node(queue, edges, n);
    assert forall|i: int, j: int| 0 <= i < w.len() && 0 <= j < w.len() && i != j implies w[i] != w[j] by {
        let (lo, hi) = if i < j { (i, j) } else { (j, i) };
        if lo < queue.len() && hi >= queue.len() {
            assert(w[lo] == queue[lo]);
            assert(w[hi] == f[hi - queue.len()]);
            assert(queue.contains(queue[lo]));
        }
    }
    assert forall|i: int| 0 <= i < edges.len() implies w.contains(#[trigger] edges[i]) by {
        if queue.contains(edges[i]) {
            let j = choose|j: int| 0 <= j < queue.len() && queue[j] == edges[i];
            assert(w[j] == edges[i]);
        } else {
            let j = choose|j: int| 0 <= j < f.len() && f[j] == edges[i];
            assert(w[queue.len() + j] == edges[i]);
        }
    }
    assert forall|i: int| 0 <= i < w.len() implies (#[trigger] w[i]) < n by {
        if i >= queue.len() {
            assert(w[i] == f[i - queue.len()]);
        }
    }
}

/// The queue of the terminals: each edge once, and every edge of a terminal.
proof fn lemma_with_terminals(net: SearchNet, t: int)
    requires
        can_search(net),
        0 <= t <= net.terminals,
    ensures
        ({
            let q = with_terminals(net.node_edges, net.ends.len() as int, t);
            &&& q.no_duplicates()
            &&& forall|i: int| 0 <= i < q.len() ==> (#[trigger] q[i]) < net.ends.len()
            &&& forall|m: int, k: int| 0 <= m < t && 0 <= k < net.node_edges[m]@.len() ==> q.contains(#[trigger] net.node_edges[m]@[k])
        }),
    decreases t,
{
    if t > 0 {
        lemma_with_terminals(net, t - 1);
        let n = net.ends.len() as int;
        let (before, q) = (with_terminals(net.node_edges, n, t - 1), with_terminals(net.node_edges, n, t));
        lemma_with_node(before, net.node_edges[t - 1]@, n);
        assert forall|m: int, k: int| 0 <= m < t && 0 <= k < net.node_edges[m]@.len() implies q.contains(#[trigger] net.node_edges[m]@[k]) by {
            if m < t - 1 {
                assert(before.contains(net.node_edges[m]@[k]));
                let j = choose|j: int| 0 <= j < before.len() && before[j] == net.node_edges[m]@[k];
                assert(q[j] == net.node_edges[m]@[k]);
            }
        }
    }
}

/// What holds of a search after `k` turns.
pub open spec fn search_holds(net: SearchNet, k: int) -> bool {
    let s = searched(net, k);
    &&& s.turns.len() == k
    &&& s.assigned.len() == net.node_edges.len()
    &&& s.queue.no_duplicates()
    &&& forall|i: int| 0 <= i < s.queue.len() ==> (#[trigger] s.queue[i]) < net.ends.len()
    &&& forall|i: int| 0 <= i < k ==> (#[trigger] s.turns[i]).eid == s.queue[i]
    &&& forall|m: int, j: int| 0 <= m < net.terminals && 0 <= j < net.node_edges[m]@.len() ==> s.queue.contains(#[trigger] net.node_edges[m]@[j])
    &&& forall|m: int, j: int|
        0 <= m < s.assigned.len() && s.assigned[m] && !net.assigned[m] && 0 <= j < net.node_edges[m]@.len() ==> s.queue.contains(#[trigger] net.node_edges[m]@[j])
    &&& forall|i: int| 0 <= i < k ==> s.assigned[arrival(net.ends[(#[trigger] s.turns[i]).eid as int], s.turns[i].dir)]
}

proof fn lemma_search_holds(net: SearchNet, n: int, k: int)
    requires
        can_search(net),
        0 <= k <= n,
        forall|i: int| 0 <= i < n ==> (#[trigger] searched(net, i)).queue.len() > i,
    ensures
        search_holds(net, k),
    decreases k,
{
    if k == 0 {
        lemma_with_terminals(net, net.terminals);
    } else {
        lemma_search_holds(net, n, k - 1);
        let (s, r) = (searched(net, k - 1), searched(net, k));
        assert(s.queue.len() > k - 1);
        let e = s.queue[k - 1];
        let dir = s.assigned[net.ends[e as int].0 as int];
        let at = arrival(net.ends[e as int], dir);
        assert(net.ends[e as int].0 < net.node_edges.len());
        if !s.assigned[at] {
            lemma_with_node(s.queue, net.node_edges[at]@, net.ends.len() as int);
        }
        assert forall|x: usize| s.queue.contains(x) implies r.queue.contains(x) by {
            let j = choose|j: int| 0 <= j < s.queue.len() && s.queue[j] == x;
            assert(r.queue[j] == x);
        }
        assert forall|m: int, j: int| 0 <= m < r.assigned.len() && r.assigned[m] && !net.assigned[m] && 0 <= j < net.node_edges[m]@.len() implies r.queue.contains(
            #[trigger] net.node_edges[m]@[j]) by {
            if s.assigned[m] {
                assert(s.queue.contains(net.node_edges[m]@[j]));
            } else {
                assert(m == at);
            }
        }
        assert forall|m: int, j: int| 0 <= m < net.terminals && 0 <= j < net.node_edges[m]@.len() implies r.queue.contains(#[trigger] net.node_edges[m]@[j]) by {
            assert(s.queue.contains(net.node_edges[m]@[j]));
        }
        assert forall|i: int| 0 <= i < k implies (#[trigger] r.turns[i]).eid == r.queue[i] by {
            if i < k - 1 {
                assert(r.turns[i] == s.turns[i]);
                assert(s.turns[i].eid == s.queue[i]);
            }
        }
        assert forall|i: int| 0 <= i < k implies r.assigned[arrival(net.ends[(#[trigger] r.turns[i]).eid as int], r.turns[i].dir)] by {
            if i < k - 1 {
                assert(r.turns[i] == s.turns[i]);
                assert(s.turns[i].eid == s.queue[i]);
                assert(net.ends[s.queue[i] as int].0 < net.node_edges.len());
            }
        }
    }
}

/// Whether one of the turns is an edge's.
pub open spec fn is_taken(turns: Seq<EdgeTurn>, e: usize) -> bool {
    exists|i: int| 0 <= i < turns.len() && (#[trigger] turns[i]).eid == e
}

/// No edge is given its layers twice.
pub proof fn every_turn_is_another_edges(net: SearchNet, turns: Seq<EdgeTurn>, i: int, j: int)
    requires
        can_search(net),
        are_turns(net, turns),
        0 <= i < j < turns.len(),
    ensures
        turns[i].eid < net.ends.len(),
        turns[i].eid != turns[j].eid,
{
    let n = turns.len() as int;
    lemma_search_holds(net, n, n);
    let s = searched(net, n);
    assert(s.turns[i].eid == s.queue[i] && s.turns[j].eid == s.queue[j]);
}

/// Every edge that can be reached is given its layers: those of the terminals, and those of each node at which
/// a turn arrives, where the node was not assigned before.
pub proof fn the_search_leaves_no_edge_out(net: SearchNet, turns: Seq<EdgeTurn>)
    requires
        can_search(net),
        are_turns(net, turns),
    ensures
        forall|m: int, k: int| 0 <= m < net.terminals && 0 <= k < net.node_edges[m]@.len() ==> is_taken(turns, #[trigger] net.node_edges[m]@[k]),
        forall|i: int, k: int|
            0 <= i < turns.len() && !net.assigned[arrival(net.ends[turns[i].eid as int], turns[i].dir)] && 0 <= k < net.node_edges[arrival(
                net.ends[turns[i].eid as int],
                turns[i].dir,
            )]@.len() ==> is_taken(turns, #[trigger] net.node_edges[arrival(net.ends[turns[i].eid as int], turns[i].dir)]@[k]),
{
    let n = turns.len() as int;
    lemma_search_holds(net, n, n);
    let s = searched(net, n);
    assert forall|e: usize| s.queue.contains(e) implies is_taken(turns, e) by {
        let i = choose|i: int| 0 <= i < s.queue.len() && s.queue[i] == e;
        assert(s.turns[i].eid == s.queue[i]);
        assert(turns[i].eid == e);
    }
    assert forall|i: int, k: int|
        0 <= i < turns.len() && !net.assigned[arrival(net.ends[turns[i].eid as int], turns[i].dir)] && 0 <= k < net.node_edges[arrival(
            net.ends[turns[i].eid as int],
            turns[i].dir,
        )]@.len() implies is_taken(turns, #[trigger] net.node_edges[arrival(net.ends[turns[i].eid as int], turns[i].dir)]@[k]) by {
        let m = arrival(net.ends[turns[i].eid as int], turns[i].dir);
        assert(s.turns[i] == turns[i]);
        assert(s.turns[i].eid == s.queue[i]);
        assert(net.ends[s.queue[i] as int].0 < net.node_edges.len());
        assert(s.assigned[m]);
        assert(s.queue.contains(net.node_edges[m]@[k]));
    }
}

// ---- pins and routes ----

/// Whether a terminal's pin is one of the net's.
pub open spec fn has_pin(pin: i32, pin_layers: Seq<i16>) -> bool {
    0 <= pin < pin_layers.len()
}

/// Each terminal node's pin layer. `Err` with the first terminal that has no pin.
pub fn node_pin_layers(id: usize, num_terminals: usize, node_to_pin_idx: &Vec<i32>, pin_layers: &Vec<i16>) -> (r: Result<Vec<i16>, String>)
    requires
        num_terminals <= node_to_pin_idx@.len(),
        num_terminals <= u64::MAX,
        id <= u64::MAX,
    ensures
        match r {
            Ok(v) => {
                &&& v@.len() == num_terminals
                &&& forall|d: int| 0 <= d < num_terminals ==> has_pin(node_to_pin_idx@[d], pin_layers@) && #[trigger] v@[d] == pin_layers@[node_to_pin_idx@[d] as int]
            },
            Err(e) => exists|d: int| {
                &&& 0 <= d < num_terminals
                &&& !has_pin(#[trigger] node_to_pin_idx@[d], pin_layers@)
                &&& forall|j: int| 0 <= j < d ==> has_pin(#[trigger] node_to_pin_idx@[j], pin_layers@)
                &&& e@ == "net "@ + dec_nat(id as nat) + ": terminal "@ + dec_nat(d as nat) + " has no pin ("@ + dec(node_to_pin_idx@[d] as int) + ")"@
            },
        },
{
    let mut v: Vec<i16> = Vec::new();
    let mut d: usize = 0;
    while d < num_terminals
        invariant
            d <= num_terminals <= node_to_pin_idx@.len(),
            num_terminals <= u64::MAX,
            id <= u64::MAX,
            v@.len() == d,
            forall|j: int| 0 <= j < d ==> has_pin(#[trigger] node_to_pin_idx@[j], pin_layers@),
            forall|j: int| 0 <= j < d ==> #[trigger] v@[j] == pin_layers@[node_to_pin_idx@[j] as int],
        decreases num_terminals - d,
    {
        let pin: i32 = node_to_pin_idx[d];
        if pin < 0 || pin as usize >= pin_layers.len() {
            let mut e = String::from_str("net ");
            push_nat(&mut e, id as u64);
            e.append(": terminal ");
            push_nat(&mut e, d as u64);
            e.append(" has no pin (");
            push_int(&mut e, pin as i64);
            e.append(")");
            assert(!has_pin(node_to_pin_idx@[d as int], pin_layers@));
            return Err(e);
        }
        assert(has_pin(node_to_pin_idx@[d as int], pin_layers@));
        v.push(pin_layers[pin as usize]);
        d += 1;
    }
    Ok(v)
}

/// A list cut, or filled up with a value, to a length.
pub open spec fn resized<T>(s: Seq<T>, n: int, v: T) -> Seq<T> {
    Seq::new(n as nat, |i: int| if i < s.len() { s[i] } else { v })
}

fn resize_to<T: Copy>(s: &mut Vec<T>, n: usize, v: T)
    ensures
        final(s)@ == resized(old(s)@, n as int, v),
{
    let ghost s0 = s@;
    if s.len() > n {
        s.truncate(n);
    }
    while s.len() < n
        invariant
            s@.len() <= n,
            forall|i: int| 0 <= i < s@.len() ==> #[trigger] s@[i] == (if i < s0.len() { s0[i] } else { v }),
            s@.len() < n ==> s@.len() >= s0.len(),
        decreases n - s@.len(),
    {
        s.push(v);
    }
    assert(s@ =~= resized(s0, n as int, v));
}

/// Gives an edge's route the points and the layers that its length speaks of.
pub fn size_route(r: &mut TreeRoute)
    requires
        old(r).routelen >= 0,
    ensures
        final(r).grids@ == resized(old(r).grids@, old(r).routelen + 1, (0i32, 0i32)),
        final(r).layers@ == resized(old(r).layers@, old(r).routelen + 1, 0i16),
        *final(r) == (TreeRoute { grids: final(r).grids, layers: final(r).layers, ..*old(r) }),
{
    let n: usize = r.routelen as usize + 1;
    resize_to(&mut r.grids, n, (0i32, 0i32));
    resize_to(&mut r.layers, n, 0i16);
}

/// A route's points in space.
pub open spec fn points_of(r: TreeRoute) -> Seq<Point3D> {
    Seq::new(
        (if r.grids@.len() < r.layers@.len() { r.grids@.len() } else { r.layers@.len() }) as nat,
        |i: int| Point3D { x: r.grids@[i].0 as i16, y: r.grids@[i].1 as i16, layer: r.layers@[i] },
    )
}

/// Inserts the via points between consecutive points of a route on different layers. The route of an
/// edge without length stays.
pub fn route_to_full_3d(len: i32, r: &mut TreeRoute, num_layers: usize)
    requires
        len > 0 ==> steps(old(r).routelen) < points_of(*old(r)).len() && full_path(points_of(*old(r)), steps(old(r).routelen)).len() <= i32::MAX,
    ensures
        len <= 0 ==> *final(r) == *old(r),
        len > 0 ==> {
            let path = full_path(points_of(*old(r)), steps(old(r).routelen));
            &&& final(r).kind == RouteKind::MazeRoute
            &&& final(r).routelen == path.len() - 1
            &&& final(r).grids@ == path.map_values(|p: Point3D| (p.x as i32, p.y as i32))
            &&& final(r).layers@ == path.map_values(|p: Point3D| p.layer)
            &&& final(r).x_first == old(r).x_first
            &&& final(r).hvh == old(r).hvh
            &&& final(r).z_point == old(r).z_point
            &&& final(r).last_routelen == old(r).last_routelen
        },
{
    if len <= 0 {
        return;
    }
    let ghost pts = points_of(*r);
    let mut points: Vec<Point3D> = Vec::new();
    let mut k: usize = 0;
    while k < r.grids.len() && k < r.layers.len()
        invariant
            pts == points_of(*r),
            k <= pts.len(),
            points@ == pts.take(k as int),
        decreases r.grids@.len() - k,
    {
        let (x, y) = r.grids[k];
        points.push(Point3D { x: x as i16, y: y as i16, layer: r.layers[k] });
        k += 1;
        assert(points@ =~= pts.take(k as int));
    }
    assert(points@ =~= pts);
    let mut e3 = Edge3D { len, route_type: RouteType::MazeRoute, routelen: r.routelen, grids: points };
    convert_edge_to_full_3d(&mut e3, num_layers);
    let ghost path = e3.grids@;
    let mut grids: Vec<(i32, i32)> = Vec::new();
    let mut layers: Vec<i16> = Vec::new();
    k = 0;
    while k < e3.grids.len()
        invariant
            path == e3.grids@,
            k <= path.len(),
            grids@ == path.take(k as int).map_values(|p: Point3D| (p.x as i32, p.y as i32)),
            layers@ == path.take(k as int).map_values(|p: Point3D| p.layer),
        decreases path.len() - k,
    {
        let p = e3.grids[k];
        grids.push((p.x as i32, p.y as i32));
        layers.push(p.layer);
        k += 1;
        assert(grids@ =~= path.take(k as int).map_values(|p: Point3D| (p.x as i32, p.y as i32)));
        assert(layers@ =~= path.take(k as int).map_values(|p: Point3D| p.layer));
    }
    assert(path.take(k as int) =~= path);
    r.grids = grids;
    r.layers = layers;
    r.routelen = e3.routelen;
    r.kind = RouteKind::MazeRoute;
}

/// Refuses nets that are already resistance-aware before layer assignment: `Err` names the first.
pub fn refuse_res_aware(net_ids: &[usize], is_res_aware: &Vec<bool>) -> (r: Result<(), String>)
    requires
        forall|k: int| 0 <= k < net_ids@.len() ==> (#[trigger] net_ids@[k]) < is_res_aware@.len(),
    ensures
        match r {
            Ok(()) => forall|k: int| 0 <= k < net_ids@.len() ==> !is_res_aware@[(#[trigger] net_ids@[k]) as int],
            Err(e) => exists|k: int| {
                &&& 0 <= k < net_ids@.len()
                &&& is_res_aware@[(#[trigger] net_ids@[k]) as int]
                &&& forall|j: int| 0 <= j < k ==> !is_res_aware@[(#[trigger] net_ids@[j]) as int]
                &&& e@ == "net "@ + dec_nat(net_ids@[k] as nat) + " is resistance-aware on entry to layer assignment: not wired"@
            },
        },
{
    let mut k: usize = 0;
    while k < net_ids.len()
        invariant
            k <= net_ids@.len(),
            forall|k: int| 0 <= k < net_ids@.len() ==> (#[trigger] net_ids@[k]) < is_res_aware@.len(),
            forall|j: int| 0 <= j < k ==> !is_res_aware@[(#[trigger] net_ids@[j]) as int],
        decreases net_ids@.len() - k,
    {
        let id: usize = net_ids[k];
        assert(net_ids@[k as int] < is_res_aware@.len());
        if is_res_aware[id] {
            let mut e = String::from_str("net ");
            push_nat(&mut e, id as u64);
            e.append(" is resistance-aware on entry to layer assignment: not wired");
            return Err(e);
        }
        k += 1;
    }
    Ok(())
}

/// Where the wires of a layer run.
#[derive(Debug, Clone, Copy, PartialEq, Eq, Structural)]
pub enum LayerDir {
    Horizontal,
    Vertical,
    Other,
}

/// What layer assignment is given of the run.
#[derive(Debug)]
pub struct LayerParams {
    /// By layer, from 0.
    pub layer_dir: Vec<LayerDir>,
    pub resistance_aware: bool,
    /// Whether a library is loaded.
    pub liberty: bool,
    /// Whether the plane overflows as the congestion loop left it.
    pub has_2d_overflow: bool,
}

impl LayerParams {
    /// Whether the nets' slacks are read from the timer: by a resistance-aware run that has a library.
    pub fn updates_slacks(&self) -> (r: bool)
        ensures
            r == (self.liberty && self.resistance_aware),
    {
        self.liberty && self.resistance_aware
    }
}

/// What is told of a net whose resistance is asked for.
pub open spec fn survivor_text(id: int) -> Seq<char> {
    "updateSlacks: net "@ + dec(id) + " survives the skip rules and needs its resistance from the database: not wired"@
}

/// Says whether the nets take the timer's slacks over before layer assignment. Refused where a net is
/// resistance-aware already, and then where one survives the rules by which nets are skipped: its resistance is
/// not known. The survivors are given in order.
pub fn update_slacks(net_ids: &[usize], is_res_aware: &Vec<bool>, survivors: &[usize], p: &LayerParams) -> (r: Result<bool, String>)
    requires
        forall|k: int| 0 <= k < net_ids@.len() ==> (#[trigger] net_ids@[k]) < is_res_aware@.len(),
    ensures
        match r {
            Ok(taken) => {
                &&& forall|k: int| 0 <= k < net_ids@.len() ==> !is_res_aware@[(#[trigger] net_ids@[k]) as int]
                &&& survivors@.len() == 0
                &&& taken == (p.liberty && p.resistance_aware)
            },
            Err(e) => (exists|k: int| {
                &&& 0 <= k < net_ids@.len()
                &&& is_res_aware@[(#[trigger] net_ids@[k]) as int]
                &&& forall|j: int| 0 <= j < k ==> !is_res_aware@[(#[trigger] net_ids@[j]) as int]
                &&& e@ == "net "@ + dec_nat(net_ids@[k] as nat) + " is resistance-aware on entry to layer assignment: not wired"@
            }) || {
                &&& forall|k: int| 0 <= k < net_ids@.len() ==> !is_res_aware@[(#[trigger] net_ids@[k]) as int]
                &&& survivors@.len() > 0
                &&& e@ == survivor_text(survivors@[0] as int)
            },
        },
{
    match refuse_res_aware(net_ids, is_res_aware) {
        Ok(()) => {},
        Err(e) => {
            return Err(e);
        },
    }
    if survivors.len() > 0 {
        let mut e = String::from_str("updateSlacks: net ");
        push_nat(&mut e, survivors[0] as u64);
        e.append(" survives the skip rules and needs its resistance from the database: not wired");
        return Err(e);
    }
    Ok(p.updates_slacks())
}

/// The cells whose usage is summed are, layer by layer, the used ones across and then the used
/// ones along.
pub proof fn the_cells_summed_are_those_used_on_every_layer(g: Graph3d, used_h: Seq<(i32, i32)>, used_v: Seq<(i32, i32)>, n: int)
    requires
        0 <= n,
    ensures
        cells_upto(g, used_h, used_v, n) == all_of(
            n,
            |k: int| used_h.map_values(|c: (i32, i32)| cell_at(g, k, c, true)) + used_v.map_values(|c: (i32, i32)| cell_at(g, k, c, false)),
        ),
    decreases n,
{
    let f = |k: int| used_h.map_values(|c: (i32, i32)| cell_at(g, k, c, true)) + used_v.map_values(|c: (i32, i32)| cell_at(g, k, c, false));
    if n > 0 {
        the_cells_summed_are_those_used_on_every_layer(g, used_h, used_v, n - 1);
        lemma_all_next(n - 1, f);
    } else {
        lemma_all_none(f);
    }
    assert(cells_upto(g, used_h, used_v, n) =~= all_of(n, f));
}

/// Whether a step of a route, upright or level, lies on a layer at a place.
pub open spec fn is_step_on(grids: Seq<(i32, i32)>, layers: Seq<i16>, columns: int, upright: bool, l: int, i: int, k: int) -> bool {
    (grids[k].0 == grids[k + 1].0) == upright && layers[k] == l && step_place(grids, k, columns) == i
}

/// A route charges every edge of the space the layer's cost for each of its steps on that layer there,
/// and no other edge, as long as what it comes to can be held.
pub proof fn every_step_is_charged_where_it_lies(
    h: Seq<Seq<u16>>,
    v: Seq<Seq<u16>>,
    grids: Seq<(i32, i32)>,
    layers: Seq<i16>,
    cost: Seq<i8>,
    columns: int,
    l: int,
    i: int,
    n: int,
)
    requires
        0 <= n,
        h.len() == v.len(),
        0 <= l < h.len(),
        0 <= i < h[l].len(),
        v[l].len() == h[l].len(),
        forall|k: int| 0 <= k < n ==> 0 <= (#[trigger] layers[k]) < h.len(),
        forall|k: int| 0 <= k < n ==> 0 <= (#[trigger] step_place(grids, k, columns)) < h[l].len(),
        cost[l] >= 0,
        h[l][i] + sum_of(n, |k: int| if is_step_on(grids, layers, columns, false, l, i, k) { cost[l] as int } else { 0 }) <= u16::MAX,
        v[l][i] + sum_of(n, |k: int| if is_step_on(grids, layers, columns, true, l, i, k) { cost[l] as int } else { 0 }) <= u16::MAX,
    ensures
        ({
            let (h1, v1) = usage_after(h, v, grids, layers, cost, columns, n);
            &&& h1.len() == h.len()
            &&& v1.len() == v.len()
            &&& h1[l].len() == h[l].len()
            &&& v1[l].len() == v[l].len()
            &&& h1[l][i] == h[l][i] + sum_of(n, |k: int| if is_step_on(grids, layers, columns, false, l, i, k) { cost[l] as int } else { 0 })
            &&& v1[l][i] == v[l][i] + sum_of(n, |k: int| if is_step_on(grids, layers, columns, true, l, i, k) { cost[l] as int } else { 0 })
        }),
    decreases n,
{
    let f = |k: int| if is_step_on(grids, layers, columns, false, l, i, k) { cost[l] as int } else { 0 };
    let g = |k: int| if is_step_on(grids, layers, columns, true, l, i, k) { cost[l] as int } else { 0 };
    if n > 0 {
        lemma_sum_next(n - 1, f);
        lemma_sum_next(n - 1, g);
        every_step_is_charged_where_it_lies(h, v, grids, layers, cost, columns, l, i, n - 1);
        let (h0, v0) = usage_after(h, v, grids, layers, cost, columns, n - 1);
        let (h1, v1) = usage_after(h, v, grids, layers, cost, columns, n);
        let m = layers[n - 1] as int;
        assert(0 <= m < h.len());
        let at = step_place(grids, n - 1, columns);
        let c = cost[l] as int;
        assert(0 <= at < h[l].len());
        if is_step_on(grids, layers, columns, false, l, i, n - 1) {
            assert(h1[l][i] == (h0[l][i] + c) as u16);
        }
        if is_step_on(grids, layers, columns, true, l, i, n - 1) {
            assert(v1[l][i] == (v0[l][i] + c) as u16);
        }
        if m == l {
            if grids[n - 1].0 == grids[n].0 {
                assert(v1[l] == v0[l].update(at, (v0[l][at] + c) as u16));
            } else {
                assert(h1[l] == h0[l].update(at, (h0[l][at] + c) as u16));
            }
        }
    } else {
        lemma_sum_none(f);
        lemma_sum_none(g);
    }
}

/// An edge leaves its layers at both of its nodes and no other node is touched: each of the two reaches
/// the layer of the edge's end there. The node that it was taken from keeps the layers that it had, and
/// so does the far one if it was assigned; one that was not stands on the edge's layer alone. A bound
/// that moved is the edge's.
pub proof fn an_edge_widens_the_nodes_at_its_ends(walk: Seq<WalkNode>, n1a: int, n2a: int, e: i32, first: i16, last: i16, dir: bool, j: int)
    requires
        0 <= n1a < walk.len(),
        0 <= n2a < walk.len(),
        n1a != n2a,
        0 <= j < walk.len(),
    ensures
        ({
            let after = ends_taken(walk, n1a, n2a, e, first, last, dir);
            let w = after[j];
            let l = if j == n1a { first } else { last };
            let far = if dir { n2a } else { n1a };
            &&& after.len() == walk.len()
            &&& w.assigned == walk[j].assigned
            &&& j != n1a && j != n2a ==> w == walk[j]
            &&& j == n1a || j == n2a ==> {
                &&& w.bot_layer <= l <= w.top_layer
                &&& w.bot_layer != walk[j].bot_layer ==> w.bot_layer == l && w.l_id == e
                &&& w.top_layer != walk[j].top_layer ==> w.top_layer == l && w.h_id == e
                &&& j != far || walk[j].assigned ==> {
                    &&& w.bot_layer <= walk[j].bot_layer
                    &&& walk[j].top_layer <= w.top_layer
                    &&& w.bot_layer == walk[j].bot_layer ==> w.l_id == walk[j].l_id
                    &&& w.top_layer == walk[j].top_layer ==> w.h_id == walk[j].h_id
                }
                &&& j == far && !walk[j].assigned ==> w.bot_layer == l && w.top_layer == l && w.l_id == e && w.h_id == e
            }
        }),
{
}

/// A step takes the edge between its two cells, whichever way it is walked.
pub proof fn a_step_takes_one_edge_both_ways(a: (i32, i32), b: (i32, i32), columns: int)
    requires
        a.0 == b.0 || a.1 == b.1,
    ensures
        step_place(seq![a, b], 0, columns) == step_place(seq![b, a], 0, columns),
        step_place(seq![a, b], 0, columns) == at2(a.0 as int, a.1 as int, columns) || step_place(seq![a, b], 0, columns) == at2(
            b.0 as int,
            b.1 as int,
            columns,
        ),
{
}

} // verus!
