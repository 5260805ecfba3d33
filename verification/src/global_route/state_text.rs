//! The router's state as text: every edge, the edges in use, and the nets that are routed.

use vstd::prelude::*;
use vstd::string::{StrSliceExecFns, StringExecFns};

use super::nets::RouterNet;
use crate::adjust::EdgeState;
use crate::finalize::Graph3d;
use crate::graph2d::CellSet;
use crate::text::{dec, push_int};

verus! {

/// What a line starts with.
pub open spec fn line_head(tag: Seq<char>, kind: Seq<char>) -> Seq<char> {
    "VYGI|"@ + tag + "|"@ + kind + "|"@
}

fn push_head(s: &mut String, tag: &str, kind: &str)
    ensures
        final(s)@ == old(s)@ + line_head(tag@, kind@),
{
    let ghost s0 = s@;
    s.append("VYGI|");
    s.append(tag);
    s.append("|");
    s.append(kind);
    s.append("|");
    assert(s@ =~= s0 + line_head(tag@, kind@));
}

/// The line of a grid's size.
pub open spec fn grid_line(tag: Seq<char>, xg: int, yg: int, nl: int) -> Seq<char> {
    line_head(tag, "grid"@) + dec(xg) + "|"@ + dec(yg) + "|"@ + dec(nl) + "\n"@
}

/// An edge of the plane: its capacity and its reduction, and the other numbers as text.
#[derive(Debug)]
pub struct PlaneEdgeText {
    pub x: i32,
    pub y: i32,
    pub cap: u16,
    pub usage: String,
    pub red: u16,
    pub estimate: String,
    pub last: String,
    pub congestion: String,
}

/// The line of an edge of the plane.
pub open spec fn plane_line(tag: Seq<char>, kind: Seq<char>, e: PlaneEdgeText) -> Seq<char> {
    line_head(tag, kind) + dec(e.x as int) + ","@ + dec(e.y as int) + "|cap="@ + dec(e.cap as int) + "|usage="@ + e.usage@ + "|red="@ + dec(e.red as int) + "|est="@ + e.estimate@
        + "|last="@ + e.last@ + "|cong="@ + e.congestion@ + "\n"@
}

/// The lines of the first `n` edges of the plane.
pub open spec fn plane_lines(tag: Seq<char>, kind: Seq<char>, v: Seq<PlaneEdgeText>, n: int) -> Seq<char>
    decreases n,
{
    if n <= 0 { Seq::empty() } else { plane_lines(tag, kind, v, n - 1) + plane_line(tag, kind, v[n - 1]) }
}

fn push_plane(s: &mut String, tag: &str, kind: &str, v: &Vec<PlaneEdgeText>)
    ensures
        final(s)@ == old(s)@ + plane_lines(tag@, kind@, v@, v@.len() as int),
{
    let ghost s0 = s@;
    let mut k: usize = 0;
    assert(s0 + plane_lines(tag@, kind@, v@, 0) =~= s0);
    while k < v.len()
        invariant
            k <= v@.len(),
            s@ == s0 + plane_lines(tag@, kind@, v@, k as int),
        decreases v@.len() - k,
    {
        let e = &v[k];
        let ghost s1 = s@;
        push_head(s, tag, kind);
        push_int(s, e.x as i64);
        s.append(",");
        push_int(s, e.y as i64);
        s.append("|cap=");
        push_int(s, e.cap as i64);
        s.append("|usage=");
        s.append(e.usage.as_str());
        s.append("|red=");
        push_int(s, e.red as i64);
        s.append("|est=");
        s.append(e.estimate.as_str());
        s.append("|last=");
        s.append(e.last.as_str());
        s.append("|cong=");
        s.append(e.congestion.as_str());
        s.append("\n");
        k += 1;
        assert(s@ =~= s1 + plane_line(tag@, kind@, *e));
        assert(s@ =~= s0 + plane_lines(tag@, kind@, v@, k as int));
    }
}

/// The first `n` cells, a semicolon after each.
pub open spec fn cells_text(v: Seq<(i32, i32)>, n: int) -> Seq<char>
    decreases n,
{
    if n <= 0 { Seq::empty() } else { cells_text(v, n - 1) + dec(v[n - 1].0 as int) + ","@ + dec(v[n - 1].1 as int) + ";"@ }
}

/// The line of the edges in use.
pub open spec fn used_line(tag: Seq<char>, kind: Seq<char>, v: Seq<(i32, i32)>) -> Seq<char> {
    line_head(tag, kind) + cells_text(v, v.len() as int) + "\n"@
}

fn push_used(s: &mut String, tag: &str, kind: &str, v: &CellSet)
    ensures
        final(s)@ == old(s)@ + used_line(tag@, kind@, v.cells@),
{
    let ghost s0 = s@;
    push_head(s, tag, kind);
    let ghost s1 = s@;
    let mut k: usize = 0;
    assert(s1 + cells_text(v.cells@, 0) =~= s1);
    while k < v.cells.len()
        invariant
            k <= v.cells@.len(),
            s@ == s1 + cells_text(v.cells@, k as int),
        decreases v.cells@.len() - k,
    {
        let (x, y) = v.cells[k];
        push_int(s, x as i64);
        s.append(",");
        push_int(s, y as i64);
        s.append(";");
        k += 1;
        assert(s@ =~= s1 + cells_text(v.cells@, k as int));
    }
    s.append("\n");
    assert(s@ =~= s0 + used_line(tag@, kind@, v.cells@));
}

/// The line of an edge of a layer.
pub open spec fn space_line(tag: Seq<char>, kind: Seq<char>, k: int, x: int, y: int, cap: u16, usage: u16, red: u16) -> Seq<char> {
    line_head(tag, kind) + dec(k) + "|"@ + dec(x) + ","@ + dec(y) + "|cap="@ + dec(cap as int) + "|usage="@ + dec(usage as int) + "|red="@ + dec(red as int) + "\n"@
}

fn push_space(s: &mut String, tag: &str, kind: &str, k: i64, x: i64, y: i64, cap: u16, usage: u16, red: u16)
    requires
        k >= 0,
        x >= 0,
        y >= 0,
    ensures
        final(s)@ == old(s)@ + space_line(tag@, kind@, k as int, x as int, y as int, cap, usage, red),
{
    let ghost s0 = s@;
    push_head(s, tag, kind);
    push_int(s, k);
    s.append("|");
    push_int(s, x);
    s.append(",");
    push_int(s, y);
    s.append("|cap=");
    push_int(s, cap as i64);
    s.append("|usage=");
    push_int(s, usage as i64);
    s.append("|red=");
    push_int(s, red as i64);
    s.append("\n");
    assert(s@ =~= s0 + space_line(tag@, kind@, k as int, x as int, y as int, cap, usage, red));
}

/// The lines of one cell of a layer: its horizontal edge, then its vertical one. Cells are counted layer by
/// layer, row by row.
pub open spec fn cell_lines(tag: Seq<char>, g: Graph3d, h: Seq<EdgeState>, v: Seq<EdgeState>, cells: int, n: int) -> Seq<char> {
    let (k, i) = (n / cells, n % cells);
    let (x, y) = (i % (g.x_grid as int), i / (g.x_grid as int));
    space_line(tag, "h3"@, k, x, y, g.h_cap@[k]@[i], g.h_usage@[k]@[i], h[n].red) + space_line(tag, "v3"@, k, x, y, g.v_cap@[k]@[i], g.v_usage@[k]@[i], v[n].red)
}

/// The lines of the first `n` cells.
pub open spec fn space_lines(tag: Seq<char>, g: Graph3d, h: Seq<EdgeState>, v: Seq<EdgeState>, cells: int, n: int) -> Seq<char>
    decreases n,
{
    if n <= 0 { Seq::empty() } else { space_lines(tag, g, h, v, cells, n - 1) + cell_lines(tag, g, h, v, cells, n - 1) }
}

fn push_all_space(s: &mut String, tag: &str, g: &Graph3d, rows: usize, h: &Vec<EdgeState>, v: &Vec<EdgeState>)
    requires
        g.wf(rows as int),
        g.num_layers * (rows * g.x_grid) <= i64::MAX,
        h@.len() == g.num_layers * (rows * g.x_grid),
        v@.len() == g.num_layers * (rows * g.x_grid),
    ensures
        final(s)@ == old(s)@ + space_lines(tag@, *g, h@, v@, rows * g.x_grid, g.num_layers * (rows * g.x_grid)),
{
    let ghost s0 = s@;
    let cells: usize = rows * g.x_grid;
    let total: usize = h.len();
    let mut n: usize = 0;
    assert(s0 + space_lines(tag@, *g, h@, v@, cells as int, 0) =~= s0);
    while n < total
        invariant
            g.wf(rows as int),
            cells == rows * g.x_grid,
            total == g.num_layers * cells,
            total <= i64::MAX,
            h@.len() == total,
            v@.len() == total,
            n <= total,
            s@ == s0 + space_lines(tag@, *g, h@, v@, cells as int, n as int),
        decreases total - n,
    {
        proof {
            lemma_place(n as int, g.num_layers as int, rows as int, g.x_grid as int);
        }
        let (k, i): (usize, usize) = (n / cells, n % cells);
        let (x, y): (usize, usize) = (i % g.x_grid, i / g.x_grid);
        let ghost s1 = s@;
        push_space(s, tag, "h3", k as i64, x as i64, y as i64, g.h_cap[k][i], g.h_usage[k][i], h[n].red);
        push_space(s, tag, "v3", k as i64, x as i64, y as i64, g.v_cap[k][i], g.v_usage[k][i], v[n].red);
        assert(s@ =~= s1 + cell_lines(tag@, *g, h@, v@, cells as int, n as int));
        n += 1;
        assert(s@ =~= s0 + space_lines(tag@, *g, h@, v@, cells as int, n as int));
    }
}

/// Where a flat place lies.
proof fn lemma_place(n: int, layers: int, rows: int, columns: int)
    requires
        0 <= n < layers * (rows * columns),
        layers >= 0,
        rows >= 0,
        columns >= 0,
    ensures
        rows * columns > 0,
        columns > 0,
        0 <= n / (rows * columns) < layers,
        0 <= n % (rows * columns) < rows * columns,
        n / (rows * columns) <= n,
        0 <= (n % (rows * columns)) / columns <= n,
        0 <= (n % (rows * columns)) % columns <= n,
{
    let cells = rows * columns;
    assert(cells > 0 && columns > 0) by (nonlinear_arith)
        requires
            cells == rows * columns,
            0 < layers * cells,
            layers >= 0,
            rows >= 0,
            columns >= 0,
    ;
    assert(n / cells < layers) by (nonlinear_arith)
        requires
            cells > 0,
            n < layers * cells,
    ;
    assert(0 <= n / cells <= n) by (nonlinear_arith)
        requires
            cells > 0,
            n >= 0,
    ;
    let i = n % cells;
    vstd::arithmetic::div_mod::lemma_mod_bound(n, cells);
    assert(i <= n) by {
        vstd::arithmetic::div_mod::lemma_mod_decreases(n as nat, cells as nat);
    }
    assert(0 <= i / columns <= i) by (nonlinear_arith)
        requires
            columns > 0,
            i >= 0,
    ;
    vstd::arithmetic::div_mod::lemma_mod_bound(i, columns);
    vstd::arithmetic::div_mod::lemma_mod_decreases(i as nat, columns as nat);
}

// ---- nets ----

/// The first `n` costs, a comma after each.
pub open spec fn costs_text(v: Seq<i8>, n: int) -> Seq<char>
    decreases n,
{
    if n <= 0 { Seq::empty() } else { costs_text(v, n - 1) + dec(v[n - 1] as int) + ","@ }
}

/// The first `n` pins, layers from 0, a semicolon after each.
pub open spec fn pins_text(v: Seq<(i32, i32, i32)>, n: int) -> Seq<char>
    decreases n,
{
    if n <= 0 { Seq::empty() } else { pins_text(v, n - 1) + dec(v[n - 1].0 as int) + ","@ + dec(v[n - 1].1 as int) + ","@ + dec(v[n - 1].2 - 1) + ";"@ }
}

/// The line of a net.
pub open spec fn net_line(tag: Seq<char>, id: int, n: RouterNet, costs: Seq<i8>) -> Seq<char> {
    line_head(tag, "net"@) + dec(id) + "|"@ + n.name@ + "|drv="@ + dec(n.root as int) + "|min="@ + dec(n.min_layer - 1) + "|max="@ + dec(n.max_layer - 1) + "|cost="@
        + dec(n.edge_cost as int) + "|lcost="@ + costs_text(costs, costs.len() as int) + "|clock="@ + dec(if n.is_clock { 1int } else { 0 }) + "|pins="@
        + pins_text(n.pins@, n.pins@.len() as int) + "\n"@
}

fn push_costs(s: &mut String, v: &Vec<i8>)
    ensures
        final(s)@ == old(s)@ + costs_text(v@, v@.len() as int),
{
    let ghost s0 = s@;
    let mut k: usize = 0;
    assert(s0 + costs_text(v@, 0) =~= s0);
    while k < v.len()
        invariant
            k <= v@.len(),
            s@ == s0 + costs_text(v@, k as int),
        decreases v@.len() - k,
    {
        push_int(s, v[k] as i64);
        s.append(",");
        k += 1;
        assert(s@ =~= s0 + costs_text(v@, k as int));
    }
}

fn push_pins(s: &mut String, v: &Vec<(i32, i32, i32)>)
    ensures
        final(s)@ == old(s)@ + pins_text(v@, v@.len() as int),
{
    let ghost s0 = s@;
    let mut k: usize = 0;
    assert(s0 + pins_text(v@, 0) =~= s0);
    while k < v.len()
        invariant
            k <= v@.len(),
            s@ == s0 + pins_text(v@, k as int),
        decreases v@.len() - k,
    {
        let (x, y, l) = v[k];
        push_int(s, x as i64);
        s.append(",");
        push_int(s, y as i64);
        s.append(",");
        push_int(s, l as i64 - 1);
        s.append(";");
        k += 1;
        assert(s@ =~= s0 + pins_text(v@, k as int));
    }
}

fn net_of(tag: &str, id: usize, n: &RouterNet, costs: &Vec<i8>) -> (s: String)
    requires
        id <= i64::MAX,
        n.root <= i64::MAX,
    ensures
        s@ == net_line(tag@, id as int, *n, costs@),
{
    let mut s = String::from_str("");
    proof {
        reveal_strlit("");
    }
    push_head(&mut s, tag, "net");
    assert(s@ =~= line_head(tag@, "net"@));
    push_int(&mut s, id as i64);
    s.append("|");
    s.append(n.name.as_str());
    s.append("|drv=");
    push_int(&mut s, n.root as i64);
    s.append("|min=");
    push_int(&mut s, n.min_layer as i64 - 1);
    s.append("|max=");
    push_int(&mut s, n.max_layer as i64 - 1);
    s.append("|cost=");
    push_int(&mut s, n.edge_cost as i64);
    s.append("|lcost=");
    push_costs(&mut s, costs);
    s.append("|clock=");
    push_int(&mut s, if n.is_clock { 1 } else { 0 });
    s.append("|pins=");
    push_pins(&mut s, &n.pins);
    s.append("\n");
    s
}

/// The lines of the first `n` routed nets.
pub open spec fn net_lines(tag: Seq<char>, ids: Seq<usize>, nets: Seq<RouterNet>, costs: Seq<Vec<i8>>, n: int) -> Seq<char>
    decreases n,
{
    if n <= 0 {
        Seq::empty()
    } else {
        let id = ids[n - 1] as int;
        net_lines(tag, ids, nets, costs, n - 1) + net_line(tag, id, nets[id], costs[id]@)
    }
}

/// A router's state: the edges of the plane, those in use, the edges of the layers with their reductions, and
/// the nets with the numbers of the routed ones and their costs by layer.
#[derive(Debug)]
pub struct RouterState {
    pub rows: usize,
    pub plane_h: Vec<PlaneEdgeText>,
    pub plane_v: Vec<PlaneEdgeText>,
    pub used_h: CellSet,
    pub used_v: CellSet,
    pub space: Graph3d,
    pub edges_h: Vec<EdgeState>,
    pub edges_v: Vec<EdgeState>,
    pub net_ids: Vec<usize>,
    pub nets: Vec<RouterNet>,
    pub layer_edge_cost: Vec<Vec<i8>>,
}

/// Whether a state's lists fit each other and the machine's range.
pub open spec fn state_fits(a: RouterState) -> bool {
    &&& a.space.wf(a.rows as int)
    &&& a.space.num_layers * (a.rows * a.space.x_grid) <= i64::MAX
    &&& a.edges_h@.len() == a.space.num_layers * (a.rows * a.space.x_grid)
    &&& a.edges_v@.len() == a.space.num_layers * (a.rows * a.space.x_grid)
    &&& a.rows <= i64::MAX && a.space.x_grid <= i64::MAX && a.space.num_layers <= i64::MAX
    &&& a.nets@.len() <= i64::MAX
    &&& a.layer_edge_cost@.len() == a.nets@.len()
    &&& forall|k: int| 0 <= k < a.net_ids@.len() ==> #[trigger] a.net_ids@[k] < a.nets@.len()
    &&& forall|k: int| 0 <= k < a.nets@.len() ==> (#[trigger] a.nets@[k]).root <= i64::MAX
}

/// A state as text.
pub open spec fn state_text(tag: Seq<char>, a: RouterState) -> Seq<char> {
    grid_line(tag, a.space.x_grid as int, a.rows as int, a.space.num_layers as int) + plane_lines(tag, "h"@, a.plane_h@, a.plane_h@.len() as int)
        + plane_lines(tag, "v"@, a.plane_v@, a.plane_v@.len() as int) + used_line(tag, "usedh"@, a.used_h.cells@) + used_line(tag, "usedv"@, a.used_v.cells@)
        + space_lines(tag, a.space, a.edges_h@, a.edges_v@, a.rows * a.space.x_grid, a.space.num_layers * (a.rows * a.space.x_grid)) + net_lines(
        tag, a.net_ids@, a.nets@, a.layer_edge_cost@, a.net_ids@.len() as int)
}

/// The router's state as text, a line for every edge and every routed net.
pub fn router_state_text(tag: &str, a: &RouterState) -> (s: String)
    requires
        state_fits(*a),
    ensures
        s@ == state_text(tag@, *a),
{
    let mut s = String::from_str("");
    proof {
        reveal_strlit("");
    }
    push_head(&mut s, tag, "grid");
    push_int(&mut s, a.space.x_grid as i64);
    s.append("|");
    push_int(&mut s, a.rows as i64);
    s.append("|");
    push_int(&mut s, a.space.num_layers as i64);
    s.append("\n");
    assert(s@ =~= grid_line(tag@, a.space.x_grid as int, a.rows as int, a.space.num_layers as int));
    push_plane(&mut s, tag, "h", &a.plane_h);
    push_plane(&mut s, tag, "v", &a.plane_v);
    push_used(&mut s, tag, "usedh", &a.used_h);
    push_used(&mut s, tag, "usedv", &a.used_v);
    push_all_space(&mut s, tag, &a.space, a.rows, &a.edges_h, &a.edges_v);
    let ghost s0 = s@;
    let mut k: usize = 0;
    assert(s0 + net_lines(tag@, a.net_ids@, a.nets@, a.layer_edge_cost@, 0) =~= s0);
    while k < a.net_ids.len()
        invariant
            state_fits(*a),
            k <= a.net_ids@.len(),
            s@ == s0 + net_lines(tag@, a.net_ids@, a.nets@, a.layer_edge_cost@, k as int),
        decreases a.net_ids@.len() - k,
    {
        assert(a.net_ids@[k as int] < a.nets@.len());
        let id: usize = a.net_ids[k];
        assert(a.nets@[id as int].root <= i64::MAX);
        let line = net_of(tag, id, &a.nets[id], &a.layer_edge_cost[id]);
        s.append(line.as_str());
        k += 1;
        assert(s@ =~= s0 + net_lines(tag@, a.net_ids@, a.nets@, a.layer_edge_cost@, k as int));
    }
    s
}

} // verus!
