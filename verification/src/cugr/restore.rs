//! Taking a route back: the tree of a net rebuilt from the segments of its route.

use crate::lists::{all_of, lemma_all_next, lemma_all_none};
use vstd::prelude::*;
use vstd::string::StringExecFns;

use crate::cugr::design::can_negate;
use crate::cugr::geo::{Interval, Point};
use crate::cugr::grid_graph::{a_tree_at_cells_is_held, higher, lines_ok, lower, rows_within, signed, Commit, GridGraph};
use crate::cugr::grnet::{GrNet, GrPoint};
use crate::cugr::pattern_route::{add_child, add_leaf, kids_after, lemma_kids_after, tnodes, with_child, with_leaf, TNode};
use crate::cugr::steiner::as_places;
use crate::cugr::tree::{an_ordered_tree_can_be_walked, can_walk, is_ordered, GrTree};
use crate::cugr::{Cugr, StageError};
use crate::sorting::{an_order_lists_every_place, comes_before, is_order, order_by};
use crate::text::{dec, push_nat};
use crate::GSegment;

verus! {

/// The key of a cell on a layer, by which cells are visited.
pub open spec fn cell_key(g: GridGraph, c: GrPoint) -> int {
    (c.layer * g.x_size + c.p.x) * g.y_size + c.p.y
}

/// Whether the keys of all cells of a graph fit the machine.
pub open spec fn keys_fit(g: GridGraph) -> bool {
    (g.num_layers + 1) * (g.x_size + 1) * (g.y_size + 1) <= i64::MAX && g.num_layers <= i32::MAX
}

/// What a segment covers: a cell, and the steps from it.
#[verifier::ext_equal]
pub struct Covered {
    pub start: GrPoint,
    pub steps: Seq<(GrPoint, GrPoint)>,
}

pub open spec fn cell(layer: int, x: int, y: int) -> GrPoint {
    GrPoint { layer: layer as i32, p: Point { x: x as i32, y: y as i32 } }
}

/// Whether a segment is a via: it does not move.
pub open spec fn is_still(s: GSegment) -> bool {
    s.init_x == s.final_x && s.init_y == s.final_y
}

/// The layers of a segment, from 0: those of a via no higher than the top.
pub open spec fn layers_of_segment(g: GridGraph, s: GSegment) -> (int, int) {
    let top = g.num_layers - 1;
    if is_still(s) { (lower(s.init_layer - 1, top), lower(s.final_layer - 1, top)) } else { (s.init_layer - 1, s.final_layer - 1) }
}

/// The cell at `i` of a run that starts at a cell: up the layers (0), along x (1) or along y (2).
pub open spec fn run_cell(start: GrPoint, way: int, i: int) -> GrPoint {
    if way == 0 {
        cell(start.layer + i, start.p.x as int, start.p.y as int)
    } else if way == 1 {
        cell(start.layer as int, start.p.x + i, start.p.y as int)
    } else {
        cell(start.layer as int, start.p.x as int, start.p.y + i)
    }
}

/// Where a segment runs: the cell that it starts at, which way, and how far.
pub struct Run {
    pub start: GrPoint,
    pub way: int,
    pub length: int,
}

/// The steps of a run.
pub open spec fn run_steps(r: Run) -> Seq<(GrPoint, GrPoint)> {
    Seq::new((if r.length > 0 { r.length } else { 0 }) as nat, |i: int| (run_cell(r.start, r.way, i), run_cell(r.start, r.way, i + 1)))
}

/// Where a segment runs. None where a layer is out of range, an end lies outside the die, a wire changes
/// its layer, or a wire spans cells both ways.
pub open spec fn segment_run(g: GridGraph, s: GSegment) -> Option<Run> {
    let (a, b) = layers_of_segment(g, s);
    let xr = rows_within(g.gridlines@[0]@, Interval { low: s.init_x, high: s.final_x });
    let yr = rows_within(g.gridlines@[1]@, Interval { low: s.init_y, high: s.final_y });
    if a < 0 || a >= g.num_layers || b < 0 || b >= g.num_layers || xr is None || yr is None {
        None
    } else {
        let (x0, x1) = xr->0;
        let (y0, y1) = yr->0;
        if is_still(s) {
            Some(Run { start: cell(lower(a, b), x0, y0), way: 0, length: higher(a, b) - lower(a, b) })
        } else if a != b || (x0 != x1 && y0 != y1) {
            None
        } else if x0 != x1 {
            Some(Run { start: cell(a, x0, y0), way: 1, length: x1 - x0 })
        } else {
            Some(Run { start: cell(a, x0, y0), way: 2, length: y1 - y0 })
        }
    }
}

/// What a segment covers.
pub open spec fn segment_cover(g: GridGraph, s: GSegment) -> Option<Covered> {
    match segment_run(g, s) {
        Some(r) => Some(Covered { start: r.start, steps: run_steps(r) }),
        None => None,
    }
}

/// The cells of the first `n` steps, both ends of each.
pub open spec fn step_cells(steps: Seq<(GrPoint, GrPoint)>, n: int) -> Seq<GrPoint>
    decreases n,
{
    if n <= 0 { Seq::empty() } else { step_cells(steps, n - 1).push(steps[n - 1].0).push(steps[n - 1].1) }
}

/// The cells that the first `n` segments cover, in the order they are met, and the steps between them.
#[verifier::ext_equal]
pub struct RouteCover {
    pub cells: Seq<GrPoint>,
    pub steps: Seq<(GrPoint, GrPoint)>,
}

pub open spec fn route_cover(g: GridGraph, route: Seq<GSegment>, n: int) -> Option<RouteCover>
    decreases n,
{
    if n <= 0 {
        Some(RouteCover { cells: Seq::empty(), steps: Seq::empty() })
    } else {
        match route_cover(g, route, n - 1) {
            Some(r) => match segment_cover(g, route[n - 1]) {
                Some(c) => Some(RouteCover { cells: r.cells.push(c.start) + step_cells(c.steps, c.steps.len() as int), steps: r.steps + c.steps }),
                None => None,
            },
            None => None,
        }
    }
}

// ---- the tree over the cells ----

/// Whether keys are those of the cells of a cover, rising.
pub open spec fn are_keys(g: GridGraph, r: RouteCover, keys: Seq<i64>) -> bool {
    &&& forall|i: int, j: int| 0 <= i < j < keys.len() ==> keys[i] < keys[j]
    &&& forall|k: i64| #[trigger] keys.contains(k) <==> has_key(g, r, k as int)
}

/// Whether a cell of a cover has a key.
pub open spec fn has_key(g: GridGraph, r: RouteCover, k: int) -> bool {
    exists|i: int| 0 <= i < r.cells.len() && cell_key(g, #[trigger] r.cells[i]) == k
}

/// The first cell of a cover with a key, from the `i`-th on.
pub open spec fn first_with_key(g: GridGraph, cells: Seq<GrPoint>, k: int, i: int) -> Option<GrPoint>
    decreases cells.len() - i,
{
    if i >= cells.len() {
        None
    } else if cell_key(g, cells[i]) == k {
        Some(cells[i])
    } else {
        first_with_key(g, cells, k, i + 1)
    }
}

/// Whether a step joins two keys.
pub open spec fn joins(g: GridGraph, r: RouteCover, a: int, b: int) -> bool {
    exists|i: int| 0 <= i < r.steps.len() && is_step(g, #[trigger] r.steps[i], a, b)
}

pub open spec fn is_step(g: GridGraph, s: (GrPoint, GrPoint), a: int, b: int) -> bool {
    (cell_key(g, s.0) == a && cell_key(g, s.1) == b) || (cell_key(g, s.0) == b && cell_key(g, s.1) == a)
}

/// Whether places are those of the cells that a step joins to one, rising.
pub open spec fn are_near(g: GridGraph, r: RouteCover, keys: Seq<i64>, a: int, near: Seq<int>) -> bool {
    &&& forall|i: int, j: int| 0 <= i < j < near.len() ==> near[i] < near[j]
    &&& forall|b: int| #[trigger] near.contains(b) <==> 0 <= b < keys.len() && joins(g, r, keys[a] as int, keys[b] as int)
}

/// A tree and the places of its nodes, in the order they were reached.
#[verifier::ext_equal]
pub struct Reached {
    pub tree: Seq<TNode>,
    pub order: Seq<int>,
}

/// A tree after the cells near node `i`, from the `j`-th on, are reached from it, each once.
pub open spec fn reach_near(cells: Seq<GrPoint>, near: Seq<int>, t: Reached, i: int, j: int) -> Reached
    decreases near.len() - j,
{
    if j < 0 || j >= near.len() {
        t
    } else if t.order.contains(near[j]) {
        reach_near(cells, near, t, i, j + 1)
    } else {
        let c = cells[near[j]];
        let u = Reached { tree: with_child(with_leaf(t.tree, c.layer, c.p), i, t.tree.len() as int), order: t.order.push(near[j]) };
        reach_near(cells, near, u, i, j + 1)
    }
}

/// A tree after the cells are reached from node `i` and all later ones, breadth first.
pub open spec fn reach_all(cells: Seq<GrPoint>, near: Seq<Seq<int>>, t: Reached, i: int) -> Reached
    decreases cells.len() - i,
{
    if i < 0 || i >= t.order.len() || i >= cells.len() { t } else { reach_all(cells, near, reach_near(cells, near[t.order[i]], t, i, 0), i + 1) }
}

/// The tree from the first cell.
pub open spec fn reach_from_first(cells: Seq<GrPoint>, near: Seq<Seq<int>>) -> Reached {
    reach_all(cells, near, Reached { tree: with_leaf(Seq::empty(), cells[0].layer, cells[0].p), order: seq![0] }, 0)
}

/// Whether cells and the places near each are those of a cover, by key.
pub open spec fn is_laid_by_key(g: GridGraph, r: RouteCover, keys: Seq<i64>, cells: Seq<GrPoint>, near: Seq<Seq<int>>) -> bool {
    &&& are_keys(g, r, keys)
    &&& cells.len() == keys.len()
    &&& near.len() == keys.len()
    &&& forall|a: int| 0 <= a < keys.len() ==> Some(#[trigger] cells[a]) == first_with_key(g, r.cells, keys[a] as int, 0)
    &&& forall|a: int| 0 <= a < keys.len() ==> are_near(g, r, keys, a, #[trigger] near[a])
}

/// Whether a tree is the one of a route, or none where the route has none: a tree reaches every cell that
/// the route covers.
pub open spec fn is_route_tree(g: GridGraph, route: Seq<GSegment>, tree: Option<Seq<TNode>>) -> bool {
    match route_cover(g, route, route.len() as int) {
        None => tree is None,
        Some(r) => if r.cells.len() == 0 {
            tree is None
        } else {
            exists|keys: Seq<i64>, cells: Seq<GrPoint>, near: Seq<Seq<int>>| #[trigger]
                is_laid_by_key(g, r, keys, cells, near) && tree == (if reach_from_first(cells, near).order.len() == cells.len() {
                    Some(reach_from_first(cells, near).tree)
                } else {
                    None
                })
        },
    }
}

proof fn lemma_key_fits(g: GridGraph, c: GrPoint)
    requires
        keys_fit(g),
        0 <= c.layer < g.num_layers,
        0 <= c.p.x <= g.x_size,
        0 <= c.p.y <= g.y_size,
    ensures
        0 <= cell_key(g, c) <= i64::MAX,
        0 <= c.layer * g.x_size,
        0 <= c.layer * g.x_size + c.p.x <= i64::MAX,
        0 <= (c.layer * g.x_size + c.p.x) * g.y_size <= i64::MAX,
{
    let (l, xs, ys, x, y, n) = (c.layer as int, g.x_size as int, g.y_size as int, c.p.x as int, c.p.y as int, g.num_layers as int);
    assert(l * xs >= 0) by (nonlinear_arith)
        requires
            l >= 0,
            xs >= 0,
    ;
    assert(l * xs + x <= (n + 1) * (xs + 1) - 1) by (nonlinear_arith)
        requires
            0 <= l < n,
            xs >= 0,
            0 <= x <= xs,
    ;
    let a = l * xs + x;
    let m = (n + 1) * (xs + 1);
    assert(0 <= a * ys && a * ys + y <= m * (ys + 1)) by (nonlinear_arith)
        requires
            0 <= a <= m - 1,
            ys >= 0,
            0 <= y <= ys,
    ;
    assert(a <= m * (ys + 1)) by (nonlinear_arith)
        requires
            0 <= a <= m - 1,
            ys >= 0,
    ;
}

/// The key of a cell.
fn hash_cell(g: &GridGraph, c: GrPoint) -> (k: i64)
    requires
        keys_fit(*g),
        0 <= c.layer < g.num_layers,
        0 <= c.p.x <= g.x_size,
        0 <= c.p.y <= g.y_size,
    ensures
        k == cell_key(*g, c),
        k >= 0,
{
    proof {
        lemma_key_fits(*g, c);
        lemma_size_fits(*g);
    }
    (c.layer as i64 * g.x_size as i64 + c.p.x as i64) * g.y_size as i64 + c.p.y as i64
}

proof fn lemma_size_fits(g: GridGraph)
    requires
        keys_fit(g),
    ensures
        g.x_size <= i64::MAX,
        g.y_size <= i64::MAX,
{
    let (n, x, y) = (g.num_layers as int, g.x_size as int, g.y_size as int);
    assert((n + 1) * (x + 1) >= x + 1) by (nonlinear_arith)
        requires
            n >= 0,
            x >= 0,
    ;
    let m = (n + 1) * (x + 1);
    assert(m * (y + 1) >= m && m * (y + 1) >= y + 1) by (nonlinear_arith)
        requires
            m >= 1,
            y >= 0,
    ;
}

/// Whether a cell lies where keys fit.
spec fn key_ok(g: GridGraph, c: GrPoint) -> bool {
    0 <= c.layer < g.num_layers && 0 <= c.p.x <= g.x_size && 0 <= c.p.y <= g.y_size
}

spec fn cover_ok(g: GridGraph, cells: Seq<GrPoint>, steps: Seq<(GrPoint, GrPoint)>) -> bool {
    &&& forall|i: int| 0 <= i < cells.len() ==> key_ok(g, #[trigger] cells[i])
    &&& forall|i: int| 0 <= i < steps.len() ==> key_ok(g, (#[trigger] steps[i]).0) && key_ok(g, steps[i].1)
    &&& forall|i: int| 0 <= i < steps.len() ==> cells.contains((#[trigger] steps[i]).0) && cells.contains(steps[i].1)
}

fn add_step(g: &GridGraph, a: GrPoint, b: GrPoint, cells: &mut Vec<GrPoint>, steps: &mut Vec<(GrPoint, GrPoint)>)
    requires
        cover_ok(*g, old(cells)@, old(steps)@),
        key_ok(*g, a),
        key_ok(*g, b),
    ensures
        final(cells)@ == old(cells)@.push(a).push(b),
        final(steps)@ == old(steps)@.push((a, b)),
        cover_ok(*g, final(cells)@, final(steps)@),
{
    let ghost (c0, s0) = (cells@, steps@);
    cells.push(a);
    cells.push(b);
    steps.push((a, b));
    proof {
        let (c, s) = (cells@, steps@);
        assert(c[c0.len() as int] == a && c[(c0.len() + 1) as int] == b);
        assert forall|i: int| 0 <= i < s.len() implies c.contains((#[trigger] s[i]).0) && c.contains(s[i].1) by {
            if i < s0.len() {
                assert(c0.contains(s0[i].0) && c0.contains(s0[i].1));
                let j = choose|j: int| 0 <= j < c0.len() && c0[j] == s0[i].0;
                let k = choose|k: int| 0 <= k < c0.len() && c0[k] == s0[i].1;
                assert(c[j] == s[i].0 && c[k] == s[i].1);
            }
        }
    }
}

fn add_start(g: &GridGraph, a: GrPoint, cells: &mut Vec<GrPoint>, steps: &Vec<(GrPoint, GrPoint)>)
    requires
        cover_ok(*g, old(cells)@, steps@),
        key_ok(*g, a),
    ensures
        final(cells)@ == old(cells)@.push(a),
        cover_ok(*g, final(cells)@, steps@),
{
    let ghost c0 = cells@;
    cells.push(a);
    proof {
        let c = cells@;
        assert forall|i: int| 0 <= i < steps@.len() implies c.contains((#[trigger] steps@[i]).0) && c.contains(steps@[i].1) by {
            assert(c0.contains(steps@[i].0) && c0.contains(steps@[i].1));
            let j = choose|j: int| 0 <= j < c0.len() && c0[j] == steps@[i].0;
            let k = choose|k: int| 0 <= k < c0.len() && c0[k] == steps@[i].1;
            assert(c[j] == steps@[i].0 && c[k] == steps@[i].1);
        }
    }
}

/// Whether a run stays where keys fit.
spec fn run_ok(g: GridGraph, r: Run) -> bool {
    &&& key_ok(g, r.start)
    &&& 0 <= r.way <= 2
    &&& r.length <= i32::MAX
    &&& r.length > 0 && r.way == 0 ==> r.start.layer + r.length < g.num_layers && r.start.layer + r.length <= i32::MAX
    &&& r.length > 0 && r.way == 1 ==> r.start.p.x + r.length <= g.x_size && r.start.p.x + r.length <= i32::MAX
    &&& r.length > 0 && r.way == 2 ==> r.start.p.y + r.length <= g.y_size && r.start.p.y + r.length <= i32::MAX
}

fn add_run(g: &GridGraph, start: GrPoint, way: u8, length: i32, cells: &mut Vec<GrPoint>, steps: &mut Vec<(GrPoint, GrPoint)>)
    requires
        cover_ok(*g, old(cells)@, old(steps)@),
        run_ok(*g, Run { start, way: way as int, length: length as int }),
    ensures
        ({
            let run = run_steps(Run { start, way: way as int, length: length as int });
            &&& final(cells)@ == old(cells)@.push(start) + step_cells(run, run.len() as int)
            &&& final(steps)@ == old(steps)@ + run
        }),
        cover_ok(*g, final(cells)@, final(steps)@),
{
    let ghost r = Run { start, way: way as int, length: length as int };
    let ghost run = run_steps(r);
    let ghost (c0, s0) = (cells@.push(start), steps@);
    add_start(g, start, cells, steps);
    let mut i: i32 = 0;
    assert(cells@ =~= c0 + step_cells(run, 0));
    assert(steps@ =~= s0 + run.take(0));
    while i < length
        invariant
            0 <= i,
            i <= length || i == 0,
            r == (Run { start, way: way as int, length: length as int }),
            run_ok(*g, r),
            run == run_steps(r),
            cover_ok(*g, cells@, steps@),
            cells@ == c0 + step_cells(run, i as int),
            steps@ == s0 + run.take(i as int),
        decreases length - i,
    {
        let (a, b) = if way == 0 {
            (GrPoint { layer: start.layer + i, p: start.p }, GrPoint { layer: start.layer + i + 1, p: start.p })
        } else if way == 1 {
            (
                GrPoint { layer: start.layer, p: Point { x: start.p.x + i, y: start.p.y } },
                GrPoint { layer: start.layer, p: Point { x: start.p.x + i + 1, y: start.p.y } },
            )
        } else {
            (
                GrPoint { layer: start.layer, p: Point { x: start.p.x, y: start.p.y + i } },
                GrPoint { layer: start.layer, p: Point { x: start.p.x, y: start.p.y + i + 1 } },
            )
        };
        assert(a == run_cell(start, way as int, i as int) && b == run_cell(start, way as int, i + 1));
        assert(run[i as int] == (a, b));
        add_step(g, a, b, cells, steps);
        i += 1;
        assert(cells@ =~= c0 + step_cells(run, i as int));
        assert(steps@ =~= s0 + run.take(i as int));
    }
    assert(run.take(i as int) =~= run);
    assert(i == run.len());
}

/// Where a segment runs.
fn find_run(g: &GridGraph, s: &GSegment) -> (r: Option<(GrPoint, u8, i32)>)
    requires
        g.wf(),
        keys_fit(*g),
        s.init_layer > i32::MIN,
        s.final_layer > i32::MIN,
    ensures
        match r {
            Some((start, way, length)) => {
                &&& segment_run(*g, *s) == Some(Run { start, way: way as int, length: length as int })
                &&& run_ok(*g, Run { start, way: way as int, length: length as int })
            },
            None => segment_run(*g, *s) is None,
        },
{
    let still = s.is_via();
    let n: i32 = g.num_layers as i32;
    let mut a: i32 = s.init_layer - 1;
    let mut b: i32 = s.final_layer - 1;
    if still {
        if a > n - 1 {
            a = n - 1;
        }
        if b > n - 1 {
            b = n - 1;
        }
    }
    if a < 0 || a >= n || b < 0 || b >= n {
        return None;
    }
    let xi = Interval { low: s.init_x, high: s.final_x };
    let yi = Interval { low: s.init_y, high: s.final_y };
    let x = match g.range_search_rows(0, xi) {
        Ok(x) => x,
        Err(_) => {
            return None;
        },
    };
    let y = match g.range_search_rows(1, yi) {
        Ok(y) => y,
        Err(_) => {
            return None;
        },
    };
    proof {
        g.rows_start_in_the_grid(0, xi);
        g.rows_start_in_the_grid(1, yi);
        g.rows_stay_in_the_grid(0, xi);
        g.rows_stay_in_the_grid(1, yi);
        assert(lines_ok(g.gridlines@[0]@) && lines_ok(g.gridlines@[1]@));
        assert(g.extent(0) == g.x_size && g.extent(1) == g.y_size);
    }
    if still {
        let (lo, hi) = if a < b { (a, b) } else { (b, a) };
        return Some((GrPoint { layer: lo, p: Point { x: x.low, y: y.low } }, 0, hi - lo));
    }
    if a != b || (x.low != x.high && y.low != y.high) {
        return None;
    }
    let start = GrPoint { layer: a, p: Point { x: x.low, y: y.low } };
    if x.low != x.high {
        Some((start, 1, x.high - x.low))
    } else {
        Some((start, 2, y.high - y.low))
    }
}

proof fn lemma_first_with_key(g: GridGraph, cells: Seq<GrPoint>, k: int, from: int, at: int)
    requires
        0 <= from <= at < cells.len(),
        cell_key(g, cells[at]) == k,
        forall|i: int| from <= i < at ==> cell_key(g, #[trigger] cells[i]) != k,
    ensures
        first_with_key(g, cells, k, from) == Some(cells[at]),
    decreases at - from,
{
    if from < at {
        assert(cell_key(g, cells[from]) != k);
        lemma_first_with_key(g, cells, k, from + 1, at);
    }
}

/// The keys of cells, rising and each once, and the first cell of each.
fn by_key(g: &GridGraph, cells: &Vec<GrPoint>, Ghost(r): Ghost<RouteCover>) -> (out: (Vec<i64>, Vec<GrPoint>))
    requires
        keys_fit(*g),
        r.cells == cells@,
        forall|i: int| 0 <= i < cells@.len() ==> key_ok(*g, #[trigger] cells@[i]),
    ensures
        are_keys(*g, r, out.0@),
        out.1@.len() == out.0@.len(),
        forall|a: int| 0 <= a < out.0@.len() ==> Some(#[trigger] out.1@[a]) == first_with_key(*g, r.cells, out.0@[a] as int, 0),
        forall|a: int| 0 <= a < out.1@.len() ==> cells@.contains(#[trigger] out.1@[a]),
{
    let mut all: Vec<i64> = Vec::new();
    let mut i: usize = 0;
    while i < cells.len()
        invariant
            keys_fit(*g),
            forall|i: int| 0 <= i < cells@.len() ==> key_ok(*g, #[trigger] cells@[i]),
            i <= cells@.len(),
            all@.len() == i,
            forall|j: int| 0 <= j < i ==> #[trigger] all@[j] == cell_key(*g, cells@[j]),
        decreases cells@.len() - i,
    {
        assert(key_ok(*g, cells@[i as int]));
        all.push(hash_cell(g, cells[i]));
        i += 1;
    }
    let p = order_by(&all);
    let total: usize = all.len();
    let mut keys: Vec<i64> = Vec::new();
    let mut firsts: Vec<GrPoint> = Vec::new();
    let mut i: usize = 0;
    while i < p.len()
        invariant
            r.cells == cells@,
            total == all@.len() == cells@.len() == p@.len(),
            forall|j: int| 0 <= j < total ==> #[trigger] all@[j] == cell_key(*g, cells@[j]),
            is_order(all@, p@),
            i <= total,
            keys@.len() == firsts@.len(),
            i > 0 ==> keys@.len() > 0 && keys@.last() == all@[p@[i - 1] as int],
            i == 0 ==> keys@.len() == 0,
            forall|a: int, b: int| 0 <= a < b < keys@.len() ==> keys@[a] < keys@[b],
            forall|j: int| 0 <= j < i ==> keys@.contains(all@[#[trigger] p@[j] as int]),
            forall|a: int| 0 <= a < keys@.len() ==> has_key(*g, r, #[trigger] keys@[a] as int),
            forall|a: int| 0 <= a < keys@.len() ==> Some(#[trigger] firsts@[a]) == first_with_key(*g, r.cells, keys@[a] as int, 0),
            forall|a: int| 0 <= a < firsts@.len() ==> cells@.contains(#[trigger] firsts@[a]),
        decreases total - i,
    {
        assert(p@[i as int] < total);
        let at: usize = p[i];
        let k: i64 = all[at];
        let n: usize = keys.len();
        let ghost keys0 = keys@;
        if n == 0 || keys[n - 1] != k {
            proof {
                assert(cell_key(*g, r.cells[at as int]) == k);
                assert(has_key(*g, r, k as int));
                assert forall|j: int| 0 <= j < at implies cell_key(*g, #[trigger] r.cells[j]) != k by {
                    assert(all@[j] == cell_key(*g, cells@[j]));
                    if all@[j] == k {
                        an_order_lists_every_place(all@, p@, j);
                        let m = choose|m: int| 0 <= m < p@.len() && p@[m] == j as usize;
                        assert(p@[m] == j);
                        if m < i {
                            if m < i - 1 {
                                assert(comes_before(all@, p@[m], p@[i - 1]));
                            }
                            assert(comes_before(all@, p@[i - 1], p@[i as int]));
                        } else if m > i {
                            assert(comes_before(all@, p@[i as int], p@[m]));
                        }
                    }
                }
                lemma_first_with_key(*g, r.cells, k as int, 0, at as int);
                if n > 0 {
                    assert(comes_before(all@, p@[i - 1], p@[i as int]));
                }
                assert(cells@.contains(cells@[at as int]));
            }
            keys.push(k);
            firsts.push(cells[at]);
        }
        proof {
            assert forall|j: int| 0 <= j < i + 1 implies keys@.contains(all@[#[trigger] p@[j] as int]) by {
                if j < i {
                    assert(keys0.contains(all@[p@[j] as int]));
                    let m = choose|m: int| 0 <= m < keys0.len() && keys0[m] == all@[p@[j] as int];
                    assert(keys@[m] == all@[p@[j] as int]);
                } else {
                    assert(keys@[keys@.len() - 1] == k);
                }
            }
        }
        i += 1;
    }
    proof {
        assert forall|k: i64| #[trigger] keys@.contains(k) <==> has_key(*g, r, k as int) by {
            if keys@.contains(k) {
                let a = choose|a: int| 0 <= a < keys@.len() && keys@[a] == k;
                assert(has_key(*g, r, keys@[a] as int));
            }
            if has_key(*g, r, k as int) {
                let j = choose|j: int| 0 <= j < r.cells.len() && cell_key(*g, #[trigger] r.cells[j]) == k as int;
                assert(all@[j] == cell_key(*g, cells@[j]));
                an_order_lists_every_place(all@, p@, j);
                let m = choose|m: int| 0 <= m < p@.len() && p@[m] == j as usize;
                assert(keys@.contains(all@[p@[m] as int]));
            }
        }
    }
    (keys, firsts)
}

fn find_key(keys: &Vec<i64>, k: i64) -> (r: usize)
    requires
        forall|i: int, j: int| 0 <= i < j < keys@.len() ==> keys@[i] < keys@[j],
        keys@.contains(k),
    ensures
        r < keys@.len(),
        keys@[r as int] == k,
{
    let mut lo: usize = 0;
    let mut hi: usize = keys.len();
    let ghost at = choose|i: int| 0 <= i < keys@.len() && keys@[i] == k;
    while lo < hi
        invariant
            forall|i: int, j: int| 0 <= i < j < keys@.len() ==> keys@[i] < keys@[j],
            0 <= at < keys@.len(),
            keys@[at] == k,
            lo <= at,
            at < hi,
            hi <= keys@.len(),
        decreases hi - lo,
    {
        let mid: usize = lo + (hi - lo) / 2;
        if keys[mid] == k {
            return mid;
        }
        if keys[mid] < k {
            lo = mid + 1;
        } else {
            hi = mid;
        }
    }
    lo
}

/// Whether one of the first `n` steps joins two keys.
spec fn joined_by(g: GridGraph, r: RouteCover, n: int, a: int, b: int) -> bool {
    exists|i: int| 0 <= i < n && is_step(g, #[trigger] r.steps[i], a, b)
}

/// Whether places are those that one of the first `n` steps joins to one, rising.
spec fn near_after(g: GridGraph, r: RouteCover, keys: Seq<i64>, n: int, a: int, near: Seq<usize>) -> bool {
    &&& forall|i: int, j: int| 0 <= i < j < near.len() ==> near[i] < near[j]
    &&& forall|b: usize| #[trigger] near.contains(b) <==> b < keys.len() && joined_by(g, r, n, keys[a] as int, keys[b as int] as int)
}

/// Adds a place to a rising list, once.
fn add_place(near: &mut Vec<usize>, b: usize)
    requires
        forall|i: int, j: int| 0 <= i < j < old(near)@.len() ==> old(near)@[i] < old(near)@[j],
    ensures
        forall|i: int, j: int| 0 <= i < j < final(near)@.len() ==> final(near)@[i] < final(near)@[j],
        forall|c: usize| #[trigger] final(near)@.contains(c) <==> old(near)@.contains(c) || c == b,
{
    let ghost s0 = near@;
    let mut k: usize = 0;
    while k < near.len() && near[k] < b
        invariant
            near@ == s0,
            k <= s0.len(),
            forall|j: int| 0 <= j < k ==> #[trigger] s0[j] < b,
        decreases s0.len() - k,
    {
        k += 1;
    }
    if k < near.len() && near[k] == b {
        assert(s0[k as int] == b);
        return;
    }
    near.insert(k, b);
    proof {
        let s = near@;
        assert(s =~= s0.insert(k as int, b));
        assert forall|i: int, j: int| 0 <= i < j < s.len() implies s[i] < s[j] by {
            let a = if i < k { s0[i] } else if i == k { b } else { s0[i - 1] };
            let c = if j < k { s0[j] } else if j == k { b } else { s0[j - 1] };
            assert(s[i] == a && s[j] == c);
            if i == k && j > k {
                assert(s0[k as int] > b);
            }
        }
        assert forall|c: usize| #[trigger] s.contains(c) <==> s0.contains(c) || c == b by {
            if s.contains(c) {
                let i = choose|i: int| 0 <= i < s.len() && s[i] == c;
                if i < k {
                    assert(s0[i] == c);
                } else if i > k {
                    assert(s0[i - 1] == c);
                }
            }
            if s0.contains(c) {
                let i = choose|i: int| 0 <= i < s0.len() && s0[i] == c;
                assert(s[if i < k { i } else { i + 1 }] == c);
            }
            if c == b {
                assert(s[k as int] == c);
            }
        }
    }
}

proof fn lemma_joined_next(g: GridGraph, r: RouteCover, n: int, a: int, b: int)
    requires
        0 <= n < r.steps.len(),
    ensures
        joined_by(g, r, n + 1, a, b) <==> joined_by(g, r, n, a, b) || is_step(g, r.steps[n], a, b),
{
    if joined_by(g, r, n, a, b) {
        let i = choose|i: int| 0 <= i < n && is_step(g, #[trigger] r.steps[i], a, b);
        assert(is_step(g, r.steps[i], a, b));
    }
}

/// The places near each cell.
#[verifier::rlimit(60)]
fn find_near(g: &GridGraph, steps: &Vec<(GrPoint, GrPoint)>, keys: &Vec<i64>, Ghost(r): Ghost<RouteCover>) -> (near: Vec<Vec<usize>>)
    requires
        keys_fit(*g),
        r.steps == steps@,
        are_keys(*g, r, keys@),
        cover_ok(*g, r.cells, steps@),
    ensures
        near@.len() == keys@.len(),
        forall|a: int| 0 <= a < keys@.len() ==> are_near(*g, r, keys@, a, #[trigger] as_places(near@)[a]),
        forall|a: int, k: int| 0 <= a < near@.len() && 0 <= k < near@[a]@.len() ==> #[trigger] near@[a]@[k] < keys@.len(),
{
    let total: usize = keys.len();
    let mut near: Vec<Vec<usize>> = Vec::new();
    let mut a: usize = 0;
    while a < total
        invariant
            a <= total,
            near@.len() == a,
            forall|i: int| 0 <= i < a ==> (#[trigger] near@[i])@ == Seq::<usize>::empty(),
        decreases total - a,
    {
        near.push(Vec::new());
        a += 1;
    }
    assert forall|a: int| 0 <= a < total implies near_after(*g, r, keys@, 0, a, (#[trigger] near@[a])@) by {
        assert(near@[a]@ == Seq::<usize>::empty());
    }
    let mut n: usize = 0;
    while n < steps.len()
        invariant
            keys_fit(*g),
            r.steps == steps@,
            are_keys(*g, r, keys@),
            cover_ok(*g, r.cells, steps@),
            total == keys@.len() == near@.len(),
            n <= steps@.len(),
            forall|a: int| 0 <= a < total ==> near_after(*g, r, keys@, n as int, a, (#[trigger] near@[a])@),
        decreases steps@.len() - n,
    {
        let (p, q) = steps[n];
        proof {
            assert(key_ok(*g, steps@[n as int].0) && key_ok(*g, steps@[n as int].1));
            assert(r.cells.contains(steps@[n as int].0) && r.cells.contains(steps@[n as int].1));
        }
        let ka: i64 = hash_cell(g, p);
        let kb: i64 = hash_cell(g, q);
        proof {
            let i = choose|i: int| 0 <= i < r.cells.len() && r.cells[i] == p;
            assert(cell_key(*g, r.cells[i]) == ka as int);
            assert(has_key(*g, r, ka as int));
            let j = choose|j: int| 0 <= j < r.cells.len() && r.cells[j] == q;
            assert(cell_key(*g, r.cells[j]) == kb as int);
            assert(has_key(*g, r, kb as int));
            assert(keys@.contains(ka) && keys@.contains(kb));
        }
        let ia: usize = find_key(keys, ka);
        let ib: usize = find_key(keys, kb);
        let ghost near0 = near@;
        assert(near_after(*g, r, keys@, n as int, ia as int, near0[ia as int]@));
        add_place(&mut near[ia], ib);
        let ghost near1 = near@;
        proof {
            assert(near_after(*g, r, keys@, n as int, ib as int, near0[ib as int]@));
        }
        add_place(&mut near[ib], ia);
        proof {
            assert forall|a: int| 0 <= a < total implies near_after(*g, r, keys@, n + 1, a, (#[trigger] near@[a])@) by {
                assert(near_after(*g, r, keys@, n as int, a, near0[a]@));
                assert forall|b: usize| #[trigger] near@[a]@.contains(b) <==> b < keys@.len() && joined_by(*g, r, n + 1, keys@[a] as int, keys@[b as int] as int) by {
                    if b < keys@.len() {
                        lemma_joined_next(*g, r, n as int, keys@[a] as int, keys@[b as int] as int);
                        assert(keys@[a] == ka <==> a == ia) by {
                            if a < ia { assert(keys@[a] < keys@[ia as int]); }
                            if a > ia { assert(keys@[ia as int] < keys@[a]); }
                        }
                        assert(keys@[a] == kb <==> a == ib) by {
                            if a < ib { assert(keys@[a] < keys@[ib as int]); }
                            if a > ib { assert(keys@[ib as int] < keys@[a]); }
                        }
                        assert(keys@[b as int] == ka <==> b == ia) by {
                            if b < ia { assert(keys@[b as int] < keys@[ia as int]); }
                            if b > ia { assert(keys@[ia as int] < keys@[b as int]); }
                        }
                        assert(keys@[b as int] == kb <==> b == ib) by {
                            if b < ib { assert(keys@[b as int] < keys@[ib as int]); }
                            if b > ib { assert(keys@[ib as int] < keys@[b as int]); }
                        }
                    }
                    assert(near0[a]@.contains(b) <==> b < keys@.len() && joined_by(*g, r, n as int, keys@[a] as int, keys@[b as int] as int));
                    if a == ia as int {
                        assert(near1[a]@.contains(b) <==> near0[a]@.contains(b) || b == ib);
                    }
                    if a == ib as int {
                        assert(near@[a]@.contains(b) <==> near1[a]@.contains(b) || b == ia);
                    }
                }
            }
        }
        n += 1;
    }
    proof {
        let places = as_places(near@);
        assert forall|a: int| 0 <= a < keys@.len() implies are_near(*g, r, keys@, a, #[trigger] places[a]) by {
            assert(near_after(*g, r, keys@, n as int, a, near@[a]@));
            assert forall|b: int| #[trigger] places[a].contains(b) <==> 0 <= b < keys@.len() && joins(*g, r, keys@[a] as int, keys@[b] as int) by {
                if places[a].contains(b) {
                    let k = choose|k: int| 0 <= k < places[a].len() && places[a][k] == b;
                    assert(near@[a]@[k] == b);
                    assert(near@[a]@.contains(near@[a]@[k]));
                    assert(joined_by(*g, r, n as int, keys@[a] as int, keys@[b] as int));
                    let i = choose|i: int| 0 <= i < n && is_step(*g, #[trigger] r.steps[i], keys@[a] as int, keys@[b] as int);
                    assert(is_step(*g, r.steps[i], keys@[a] as int, keys@[b] as int));
                }
                if 0 <= b < keys@.len() && joins(*g, r, keys@[a] as int, keys@[b] as int) {
                    let i = choose|i: int| 0 <= i < r.steps.len() && is_step(*g, #[trigger] r.steps[i], keys@[a] as int, keys@[b] as int);
                    assert(joined_by(*g, r, n as int, keys@[a] as int, keys@[b] as int));
                    assert(near@[a]@.contains(b as usize));
                    let k = choose|k: int| 0 <= k < near@[a]@.len() && near@[a]@[k] == b as usize;
                    assert(places[a][k] == b);
                }
            }
        }
        assert forall|a: int, k: int| 0 <= a < near@.len() && 0 <= k < near@[a]@.len() implies #[trigger] near@[a]@[k] < keys@.len() by {
            assert(near_after(*g, r, keys@, n as int, a, near@[a]@));
            assert(near@[a]@.contains(near@[a]@[k]));
        }
    }
    near
}

/// Whether every node of a tree stands at one of some cells.
pub open spec fn stands_on(tree: Seq<TNode>, cells: Seq<GrPoint>) -> bool {
    forall|n: int| 0 <= n < tree.len() ==> cells.contains(GrPoint { layer: (#[trigger] tree[n]).layer, p: tree[n].p })
}

fn reach_tree(cells: &Vec<GrPoint>, near: &Vec<Vec<usize>>) -> (r: Option<GrTree>)
    requires
        cells@.len() > 0,
        near@.len() == cells@.len(),
        forall|a: int, k: int| 0 <= a < near@.len() && 0 <= k < near@[a]@.len() ==> #[trigger] near@[a]@[k] < cells@.len(),
    ensures
        ({
            let all = reach_from_first(cells@, as_places(near@));
            match r {
                Some(t) => all.order.len() == cells@.len() && tnodes(t.nodes@) == all.tree && is_ordered(t.nodes@) && t.nodes@.len() > 0 && stands_on(all.tree, cells@),
                None => all.order.len() != cells@.len(),
            }
        }),
{
    let ghost places = as_places(near@);
    let total: usize = cells.len();
    let mut tree = GrTree::new();
    let mut order: Vec<usize> = Vec::new();
    let mut built: Vec<bool> = crate::vecs::filled(false, total);
    assert(tnodes(tree.nodes@) =~= Seq::empty());
    let _ = add_leaf(&mut tree, cells[0].layer, cells[0].p);
    order.push(0);
    built.set(0, true);
    let ghost goal = reach_from_first(cells@, places);
    proof {
        assert(order@.map_values(|v: usize| v as int) =~= seq![0int]);
        assert(cells@.contains(cells@[0]));
        assert forall|b: int| 0 <= b < total implies #[trigger] built@[b] == order@.contains(b as usize) by {
            if b == 0 {
                assert(order@[0] == 0);
            }
        }
    }
    let mut i: usize = 0;
    while i < order.len()
        invariant
            total == cells@.len() == near@.len() == built@.len(),
            total > 0,
            places == as_places(near@),
            forall|a: int, k: int| 0 <= a < near@.len() && 0 <= k < near@[a]@.len() ==> #[trigger] near@[a]@[k] < total,
            i <= order@.len() <= total,
            tree.nodes@.len() == order@.len(),
            forall|j: int| 0 <= j < order@.len() ==> #[trigger] order@[j] < total,
            order@.no_duplicates(),
            forall|b: int| 0 <= b < total ==> #[trigger] built@[b] == order@.contains(b as usize),
            kids_after(tnodes(tree.nodes@)),
            stands_on(tnodes(tree.nodes@), cells@),
            goal == reach_from_first(cells@, places),
            reach_all(cells@, places, Reached { tree: tnodes(tree.nodes@), order: order@.map_values(|v: usize| v as int) }, i as int) == goal,
        decreases total - i,
    {
        let a: usize = order[i];
        assert(order@[i as int] < total);
        assert(places[a as int].len() == near@[a as int]@.len());
        let ghost t0 = Reached { tree: tnodes(tree.nodes@), order: order@.map_values(|v: usize| v as int) };
        let ghost step = reach_near(cells@, places[a as int], t0, i as int, 0);
        let mut j: usize = 0;
        while j < near[a].len()
            invariant
                total == cells@.len() == near@.len() == built@.len(),
                places == as_places(near@),
                forall|a: int, k: int| 0 <= a < near@.len() && 0 <= k < near@[a]@.len() ==> #[trigger] near@[a]@[k] < total,
                a < total,
                places[a as int].len() == near@[a as int]@.len(),
                j <= near@[a as int]@.len(),
                i < order@.len() <= total,
                tree.nodes@.len() == order@.len(),
                forall|j: int| 0 <= j < order@.len() ==> #[trigger] order@[j] < total,
                order@.no_duplicates(),
                forall|b: int| 0 <= b < total ==> #[trigger] built@[b] == order@.contains(b as usize),
                kids_after(tnodes(tree.nodes@)),
                stands_on(tnodes(tree.nodes@), cells@),
                reach_near(cells@, places[a as int], Reached { tree: tnodes(tree.nodes@), order: order@.map_values(|v: usize| v as int) }, i as int, j as int) == step,
            decreases near@[a as int]@.len() - j,
        {
            let b: usize = near[a][j];
            assert(near@[a as int]@[j as int] < total);
            assert(places[a as int][j as int] == b);
            let ghost ints = order@.map_values(|v: usize| v as int);
            let ghost order0 = order@;
            let ghost tree0 = tnodes(tree.nodes@);
            assert(ints.contains(b as int) == order@.contains(b)) by {
                if order@.contains(b) {
                    let k = choose|k: int| 0 <= k < order@.len() && order@[k] == b;
                    assert(ints[k] == b as int);
                }
                if ints.contains(b as int) {
                    let k = choose|k: int| 0 <= k < ints.len() && ints[k] == b as int;
                    assert(order@[k] == b);
                }
            }
            if !built[b] {
                let c = cells[b];
                let id: usize = add_leaf(&mut tree, c.layer, c.p);
                add_child(&mut tree, i, id);
                order.push(b);
                built.set(b, true);
                proof {
                    assert(order@.map_values(|v: usize| v as int) =~= ints.push(b as int));
                    lemma_room(order@, total as int);
                    assert forall|k: int| 0 <= k < total implies #[trigger] built@[k] == order@.contains(k as usize) by {
                        if k == b as int {
                            assert(order@[order0.len() as int] == b);
                        } else if order0.contains(k as usize) {
                            let m = choose|m: int| 0 <= m < order0.len() && order0[m] == k as usize;
                            assert(order@[m] == k as usize);
                        } else if order@.contains(k as usize) {
                            let m = choose|m: int| 0 <= m < order@.len() && order@[m] == k as usize;
                            assert(order0[m] == k as usize);
                        }
                    }
                    let now = tnodes(tree.nodes@);
                    assert(cells@.contains(cells@[b as int]));
                    assert forall|n: int| 0 <= n < now.len() implies cells@.contains(GrPoint { layer: (#[trigger] now[n]).layer, p: now[n].p }) by {
                        if n < tree0.len() {
                            assert(now[n].layer == tree0[n].layer && now[n].p == tree0[n].p);
                        }
                    }
                }
            }
            j += 1;
        }
        i += 1;
    }
    proof {
        assert(goal =~= Reached { tree: tnodes(tree.nodes@), order: order@.map_values(|v: usize| v as int) });
        lemma_kids_after(tree.nodes@);
    }
    if order.len() == total {
        Some(tree)
    } else {
        None
    }
}

proof fn lemma_room(order: Seq<usize>, total: int)
    requires
        order.no_duplicates(),
        forall|j: int| 0 <= j < order.len() ==> #[trigger] order[j] < total,
        total >= 0,
    ensures
        order.len() <= total,
{
    let all = vstd::set_lib::set_int_range(0, total);
    vstd::set_lib::lemma_int_range(0, total);
    let ints = order.map_values(|v: usize| v as int);
    assert(ints.no_duplicates()) by {
        assert forall|i: int, j: int| 0 <= i < ints.len() && 0 <= j < ints.len() && i != j implies ints[i] != ints[j] by {
            assert(order[i] != order[j]);
        }
    }
    ints.unique_seq_to_set();
    assert(ints.to_set().subset_of(all)) by {
        assert forall|v: int| ints.to_set().contains(v) implies all.contains(v) by {
            let k = choose|k: int| 0 <= k < ints.len() && ints[k] == v;
            assert(order[k] < total);
        }
    }
    vstd::set_lib::lemma_len_subset(ints.to_set(), all);
}

/// The tree of a route: the cells that its segments cover, reached breadth first from the one of the least
/// key, nearer keys first. None where a segment cannot be placed, where nothing is covered, and where the
/// cells are not all joined.
pub fn build_tree_from_route(g: &GridGraph, route: &Vec<GSegment>) -> (r: Option<GrTree>)
    requires
        g.wf(),
        keys_fit(*g),
        forall|i: int| 0 <= i < route@.len() ==> (#[trigger] route@[i]).init_layer > i32::MIN && route@[i].final_layer > i32::MIN,
    ensures
        match r {
            Some(t) => {
                &&& is_route_tree(*g, route@, Some(tnodes(t.nodes@)))
                &&& is_ordered(t.nodes@)
                &&& t.nodes@.len() > 0
                &&& route_cover(*g, route@, route@.len() as int) is Some
                &&& stands_on(tnodes(t.nodes@), route_cover(*g, route@, route@.len() as int)->0.cells)
                &&& forall|n: int| 0 <= n < t.nodes@.len() ==> 0 <= (#[trigger] t.nodes@[n]).layer < g.num_layers && 0 <= t.nodes@[n].p.x <= g.x_size && 0 <= t.nodes@[n].p.y <= g.y_size
            },
            None => is_route_tree(*g, route@, None),
        },
{
    let mut cells: Vec<GrPoint> = Vec::new();
    let mut steps: Vec<(GrPoint, GrPoint)> = Vec::new();
    let mut i: usize = 0;
    while i < route.len()
        invariant
            g.wf(),
            keys_fit(*g),
            forall|i: int| 0 <= i < route@.len() ==> (#[trigger] route@[i]).init_layer > i32::MIN && route@[i].final_layer > i32::MIN,
            i <= route@.len(),
            cover_ok(*g, cells@, steps@),
            route_cover(*g, route@, i as int) == Some(RouteCover { cells: cells@, steps: steps@ }),
        decreases route@.len() - i,
    {
        assert(route@[i as int].init_layer > i32::MIN);
        match find_run(g, &route[i]) {
            Some((start, way, length)) => {
                add_run(g, start, way, length, &mut cells, &mut steps);
            },
            None => {
                proof {
                    lemma_cover_stops(*g, route@, i + 1, route@.len() as int);
                }
                return None;
            },
        }
        i += 1;
        proof {
            let want = route_cover(*g, route@, i as int)->0;
            assert(RouteCover { cells: cells@, steps: steps@ } =~= want);
        }
    }
    if cells.len() == 0 {
        return None;
    }
    let ghost r = RouteCover { cells: cells@, steps: steps@ };
    let (keys, firsts) = by_key(g, &cells, Ghost(r));
    let near = find_near(g, &steps, &keys, Ghost(r));
    proof {
        assert(cell_key(*g, r.cells[0]) == cell_key(*g, cells@[0]));
        assert(key_ok(*g, cells@[0]));
        lemma_key_fits(*g, cells@[0]);
        assert(has_key(*g, r, cell_key(*g, cells@[0])));
        assert(keys@.contains(cell_key(*g, cells@[0]) as i64));
        assert(is_laid_by_key(*g, r, keys@, firsts@, as_places(near@)));
    }
    let t = reach_tree(&firsts, &near);
    proof {
        if t is Some {
            let tree = t->0;
            let now = tnodes(tree.nodes@);
            assert forall|n: int| 0 <= n < now.len() implies cells@.contains(GrPoint { layer: (#[trigger] now[n]).layer, p: now[n].p }) by {
                let c = GrPoint { layer: now[n].layer, p: now[n].p };
                assert(firsts@.contains(c));
                let k = choose|k: int| 0 <= k < firsts@.len() && firsts@[k] == c;
                assert(cells@.contains(firsts@[k]));
            }
            assert forall|n: int| 0 <= n < tree.nodes@.len() implies 0 <= (#[trigger] tree.nodes@[n]).layer < g.num_layers && 0 <= tree.nodes@[n].p.x <= g.x_size && 0
                <= tree.nodes@[n].p.y <= g.y_size by {
                let c = GrPoint { layer: now[n].layer, p: now[n].p };
                assert(cells@.contains(c));
                let k = choose|k: int| 0 <= k < cells@.len() && cells@[k] == c;
                assert(key_ok(*g, cells@[k]));
            }
        }
    }
    t
}

proof fn lemma_cover_stops(g: GridGraph, route: Seq<GSegment>, m: int, n: int)
    requires
        0 <= m <= n,
        route_cover(g, route, m) is None,
    ensures
        route_cover(g, route, n) is None,
    decreases n - m,
{
    if m < n {
        lemma_cover_stops(g, route, m, n - 1);
    }
}

// ---- taking a route over ----

/// What became of taking a route over.
#[derive(Debug, PartialEq, Eq)]
pub enum Restore {
    /// The net has the route's tree.
    Done,
    /// The route was not taken over: it is `empty`, it has no `tree`, or it misses a `pin`.
    Fail(String),
}

/// The cell of a node.
pub open spec fn cell_of(n: TNode) -> GrPoint {
    GrPoint { layer: n.layer, p: n.p }
}

/// Whether a tree has a node with a cell's key.
pub open spec fn is_on_tree(g: GridGraph, t: Seq<TNode>, c: GrPoint) -> bool {
    exists|n: int| 0 <= n < t.len() && cell_key(g, cell_of(#[trigger] t[n])) == cell_key(g, c)
}

/// The first cell of a pin from the `i`-th on that a tree has a node at.
pub open spec fn first_on_tree(g: GridGraph, t: Seq<TNode>, cells: Seq<GrPoint>, i: int) -> Option<GrPoint>
    decreases cells.len() - i,
{
    if i >= cells.len() {
        None
    } else if is_on_tree(g, t, cells[i]) {
        Some(cells[i])
    } else {
        first_on_tree(g, t, cells, i + 1)
    }
}

/// The first cell of a pin that a tree has a node at.
pub open spec fn pin_hit(g: GridGraph, t: Seq<TNode>, net: GrNet, pin: int) -> Option<GrPoint> {
    first_on_tree(g, t, net.pin_access_points@[pin]@, 0)
}

/// The chosen cells after the first `n` pins are bound to a tree, each on its cell's layer alone.
pub open spec fn bound_aps(g: GridGraph, t: Seq<TNode>, net: GrNet, n: int) -> Seq<Option<(Point, Interval)>> {
    Seq::new(
        net.pin_access_points@.len(),
        |pin: int|
            if pin < n && pin_hit(g, t, net, pin) is Some {
                let c = pin_hit(g, t, net, pin)->0;
                Some((c.p, Interval { low: c.layer, high: c.layer }))
            } else {
                None
            },
    )
}

/// Whether a tree binds every pin of a net.
pub open spec fn binds_pins(g: GridGraph, t: Seq<TNode>, net: GrNet) -> bool {
    forall|i: int| 0 <= i < net.pin_access_points@.len() ==> #[trigger] pin_hit(g, t, net, i) is Some
}

/// The deposits of a net's own tree.
pub open spec fn own_deposits(c: Cugr, net: GrNet) -> crate::cugr::grid_graph::Outcome {
    match net.routing_tree {
        Some(t) => c.grid.tree_deposits(c.design, t.nodes@, t.links(), net.adopted, t.links().len() as int),
        None => crate::cugr::grid_graph::Outcome { log: Seq::empty(), error: None },
    }
}

/// Whether only a net's choices and tree differ.
pub open spec fn differs_in_route(a: GrNet, b: GrNet) -> bool {
    b == (GrNet { preferred_aps: b.preferred_aps, routing_tree: b.routing_tree, adopted: b.adopted, ..a })
}

/// Whether only one net of a router differs.
pub open spec fn differs_in_net(a: Cugr, b: Cugr, k: int) -> bool {
    &&& b.design == a.design
    &&& b.grid == a.grid
    &&& b.nets@.len() == a.nets@.len()
    &&& forall|i: int| 0 <= i < a.nets@.len() && i != k ==> #[trigger] b.nets@[i] == a.nets@[i]
    &&& differs_in_route(a.nets@[k], b.nets@[k])
}

/// Whether a router can take a route over.
pub open spec fn can_restore(c: Cugr, k: int, route: Seq<GSegment>) -> bool {
    let net = c.nets@[k];
    &&& 0 <= k < c.nets@.len()
    &&& c.grid.wf()
    &&& c.grid.flanks_fit()
    &&& keys_fit(c.grid)
    &&& c.design.via_demand_length_lower@.len() >= c.grid.num_layers
    &&& c.design.via_demand_length_upper@.len() >= c.grid.num_layers
    &&& c.design.wrong_way_demand_length@.len() >= c.grid.num_layers
    &&& can_negate(c.design, c.grid.num_layers as int)
    &&& net.routing_tree matches Some(t) ==> c.grid.can_commit(t, net.adopted)
    &&& forall|i: int| 0 <= i < route.len() ==> (#[trigger] route[i]).init_layer > i32::MIN && route[i].final_layer > i32::MIN
    &&& forall|t: GrTree|
        is_route_tree(c.grid, route, Some(#[trigger] tnodes(t.nodes@))) && can_walk(t.nodes@) && binds_pins(c.grid, tnodes(t.nodes@), net) ==> c.grid.can_commit(t, true)
}

/// Whether a router is what taking a route over leaves where a pin is missed: the old tree is gone, and
/// the pins before are bound.
pub open spec fn misses_pin(a: Cugr, b: Cugr, k: int, t: Seq<TNode>, pin: int) -> bool {
    &&& 0 <= pin < a.nets@[k].pin_access_points@.len()
    &&& pin_hit(a.grid, t, a.nets@[k], pin) is None
    &&& forall|i: int| 0 <= i < pin ==> #[trigger] pin_hit(a.grid, t, a.nets@[k], i) is Some
    &&& b.nets@[k].routing_tree is None
    &&& !b.nets@[k].adopted
    &&& b.nets@[k].preferred_aps@ == bound_aps(a.grid, t, a.nets@[k], pin)
}

/// Whether a router is what taking a route over leaves where every pin is bound: the tree is the net's,
/// and is marked as taken over.
pub open spec fn takes_over(a: Cugr, b: Cugr, k: int, t: Seq<TNode>) -> bool {
    let n = a.nets@[k].pin_access_points@.len() as int;
    &&& binds_pins(a.grid, t, a.nets@[k])
    &&& b.nets@[k].routing_tree is Some
    &&& tnodes(b.nets@[k].routing_tree->0.nodes@) == t
    &&& b.nets@[k].adopted
    &&& b.nets@[k].preferred_aps@ == bound_aps(a.grid, t, a.nets@[k], n)
}

/// Whether a router is what taking a route over leaves, and the log, given the result: the old tree's
/// deposits are in it negated, and then the new one's.
pub open spec fn is_restored(a: Cugr, b: Cugr, k: int, route: Seq<GSegment>, from: Seq<Commit>, to: Seq<Commit>, r: Result<Restore, StageError>) -> bool {
    let released = from + signed(own_deposits(a, a.nets@[k]).log, true);
    &&& differs_in_net(a, b, k)
    &&& match r {
        Ok(Restore::Fail(why)) => {
            if route.len() == 0 {
                why@ == "empty"@ && b.nets@ == a.nets@ && to == from
            } else if why@ == "tree"@ {
                is_route_tree(a.grid, route, None) && b.nets@ == a.nets@ && to == from
            } else {
                &&& own_deposits(a, a.nets@[k]).error is None
                &&& to == released
                &&& exists|t: Seq<TNode>, pin: int|
                    is_route_tree(a.grid, route, Some(t)) && #[trigger] misses_pin(a, b, k, t, pin) && why@ == missed_text(pin)
            }
        },
        Ok(Restore::Done) => {
            &&& route.len() > 0
            &&& own_deposits(a, a.nets@[k]).error is None
            &&& exists|t: Seq<TNode>| is_route_tree(a.grid, route, Some(t)) && #[trigger] takes_over(a, b, k, t)
            &&& own_deposits(b, b.nets@[k]).error is None
            &&& to == released + own_deposits(b, b.nets@[k]).log
        },
        Err(StageError::Pattern(_)) => false,
        Err(StageError::Commit(e)) => {
            &&& route.len() > 0
            &&& if own_deposits(a, a.nets@[k]).error is Some {
                &&& own_deposits(a, a.nets@[k]).error == Some(e)
                &&& b.nets@ == a.nets@
                &&& to == released
            } else {
                &&& exists|t: Seq<TNode>| is_route_tree(a.grid, route, Some(t)) && #[trigger] takes_over(a, b, k, t)
                &&& own_deposits(b, b.nets@[k]).error == Some(e)
                &&& to == released + own_deposits(b, b.nets@[k]).log
            }
        },
    }
}

/// The text of a missed pin.
pub open spec fn missed_text(pin: int) -> Seq<char> {
    "pin "@ + dec(pin)
}

fn wide_key(g: &GridGraph, layer: i32, p: Point) -> (r: i128)
    requires
        g.wf(),
    ensures
        r == cell_key(*g, GrPoint { layer, p }),
{
    assert(g.x_size <= i32::MAX && g.y_size <= i32::MAX) by {
        assert(lines_ok(g.gridlines@[0]@) && lines_ok(g.gridlines@[1]@));
    }
    let (x_size, y_size): (i128, i128) = (g.x_size as i128, g.y_size as i128);
    assert(-0x4000_0000_0000_0000 <= layer * x_size <= 0x4000_0000_0000_0000) by (nonlinear_arith)
        requires
            0 <= x_size <= i32::MAX,
            i32::MIN <= layer <= i32::MAX,
    ;
    let row: i128 = layer as i128 * x_size + p.x as i128;
    assert(-0x4_0000_0000_0000_0000_0000_0000 <= row * y_size <= 0x4_0000_0000_0000_0000_0000_0000) by (nonlinear_arith)
        requires
            0 <= y_size <= i32::MAX,
            -0x8000_0000_0000_0000 <= row <= 0x8000_0000_0000_0000,
    ;
    row * y_size + p.y as i128
}

fn find_on_tree(g: &GridGraph, tree: &GrTree, cells: &Vec<GrPoint>) -> (r: Option<GrPoint>)
    requires
        g.wf(),
    ensures
        r == first_on_tree(*g, tnodes(tree.nodes@), cells@, 0),
{
    let ghost t = tnodes(tree.nodes@);
    let mut i: usize = 0;
    while i < cells.len()
        invariant
            g.wf(),
            t == tnodes(tree.nodes@),
            i <= cells@.len(),
            first_on_tree(*g, t, cells@, i as int) == first_on_tree(*g, t, cells@, 0),
        decreases cells@.len() - i,
    {
        let c = cells[i];
        let key: i128 = wide_key(g, c.layer, c.p);
        let mut n: usize = 0;
        while n < tree.nodes.len()
            invariant
                g.wf(),
                t == tnodes(tree.nodes@),
                i < cells@.len(),
                c == cells@[i as int],
                key == cell_key(*g, c),
                n <= tree.nodes@.len(),
                forall|j: int| 0 <= j < n ==> cell_key(*g, cell_of(#[trigger] t[j])) != key,
                first_on_tree(*g, t, cells@, i as int) == first_on_tree(*g, t, cells@, 0),
            decreases tree.nodes@.len() - n,
        {
            assert(t[n as int].layer == tree.nodes@[n as int].layer && t[n as int].p == tree.nodes@[n as int].p);
            if wide_key(g, tree.nodes[n].layer, tree.nodes[n].p) == key {
                assert(cell_key(*g, cell_of(t[n as int])) == key);
                assert(is_on_tree(*g, t, c));
                return Some(c);
            }
            n += 1;
        }
        assert(!is_on_tree(*g, t, c));
        i += 1;
    }
    None
}

impl Cugr {
    /// Takes a route over as a net's tree.
    ///
    /// An empty route, or one without a tree, changes nothing. Otherwise the deposits of the old tree are
    /// released and the net is as new. Each pin in turn is bound to its first cell that the tree has, on
    /// that layer alone. A pin without one fails, with the old tree already gone. At last the tree is the
    /// net's, marked as taken over, and its deposits are made. What is released stands negated in the log.
    #[verifier::rlimit(60)]
    pub fn restore_net_route(&mut self, k: usize, route: &Vec<GSegment>, commits: &mut Vec<Commit>) -> (r: Result<Restore, StageError>)
        requires
            can_restore(*old(self), k as int, route@),
        ensures
            is_restored(*old(self), *final(self), k as int, route@, old(commits)@, final(commits)@, r),
            final(self).nets@[k as int].routing_tree matches Some(t) ==> final(self).grid.can_commit(t, final(self).nets@[k as int].adopted),
    {
        let ghost a = *self;
        let ghost net0 = self.nets@[k as int];
        if route.len() == 0 {
            return Ok(Restore::Fail(String::from_str("empty")));
        }
        let tree = match build_tree_from_route(&self.grid, route) {
            Some(t) => t,
            None => {
                return Ok(Restore::Fail(String::from_str("tree")));
            },
        };
        let ghost t = tnodes(tree.nodes@);
        proof {
            an_ordered_tree_can_be_walked(tree.nodes@);
        }
        match &self.nets[k].routing_tree {
            Some(old_tree) => {
                match self.grid.commit_tree(&self.design, old_tree, true, self.nets[k].adopted, commits) {
                    Ok(()) => {},
                    Err(e) => {
                        return Err(StageError::Commit(e));
                    },
                }
            },
            None => {
                assert(commits@ =~= old(commits)@ + signed(own_deposits(a, net0).log, true));
            },
        }
        let total: usize = self.nets[k].num_pins();
        self.nets[k].preferred_aps = crate::vecs::filled(None, total);
        self.nets[k].routing_tree = None;
        self.nets[k].adopted = false;
        assert(self.nets@[k as int].preferred_aps@ =~= bound_aps(a.grid, t, net0, 0));
        let mut pin: usize = 0;
        while pin < total
            invariant
                a == *old(self),
                can_restore(a, k as int, route@),
                route@.len() > 0,
                net0 == a.nets@[k as int],
                total == net0.pin_access_points@.len(),
                t == tnodes(tree.nodes@),
                is_route_tree(a.grid, route@, Some(t)),
                differs_in_net(a, *self, k as int),
                self.nets@[k as int].routing_tree is None,
                !self.nets@[k as int].adopted,
                pin <= total,
                forall|i: int| 0 <= i < pin ==> #[trigger] pin_hit(a.grid, t, net0, i) is Some,
                self.nets@[k as int].preferred_aps@ == bound_aps(a.grid, t, net0, pin as int),
                own_deposits(a, net0).error is None,
                can_walk(tree.nodes@),
                commits@ == old(commits)@ + signed(own_deposits(a, net0).log, true),
            decreases total - pin,
        {
            let hit = find_on_tree(&self.grid, &tree, &self.nets[k].pin_access_points[pin]);
            assert(hit == pin_hit(a.grid, t, net0, pin as int));
            match hit {
                Some(c) => {
                    let ghost before = *self;
                    self.nets[k].preferred_aps.set(pin, Some((c.p, Interval { low: c.layer, high: c.layer })));
                    assert(self.nets@[k as int].preferred_aps@ =~= bound_aps(a.grid, t, net0, pin + 1));
                    assert forall|i: int| 0 <= i < a.nets@.len() && i != k implies #[trigger] self.nets@[i] == a.nets@[i] by {
                        assert(before.nets@[i] == a.nets@[i]);
                    }
                },
                None => {
                    let mut why = String::from_str("pin ");
                    push_nat(&mut why, pin as u64);
                    proof {
                        reveal_strlit("tree");
                        reveal_strlit("pin ");
                        assert(why@ == missed_text(pin as int));
                        assert(why@[0] == 'p');
                        assert(why@ != "tree"@);
                        assert(misses_pin(a, *self, k as int, t, pin as int));
                    }
                    return Ok(Restore::Fail(why));
                },
            }
            pin += 1;
        }
        let ghost before = *self;
        self.nets[k].routing_tree = Some(tree);
        self.nets[k].adopted = true;
        proof {
            assert forall|i: int| 0 <= i < a.nets@.len() && i != k implies #[trigger] self.nets@[i] == a.nets@[i] by {
                assert(before.nets@[i] == a.nets@[i]);
            }
            assert(takes_over(a, *self, k as int, t));
            assert(a.grid.can_commit(tree, true));
        }
        match &self.nets[k].routing_tree {
            Some(new_tree) => {
                match self.grid.commit_tree(&self.design, new_tree, false, true, commits) {
                    Ok(()) => Ok(Restore::Done),
                    Err(e) => Err(StageError::Commit(e)),
                }
            },
            None => Ok(Restore::Done),
        }
    }
}

proof fn lemma_near_stands(cells: Seq<GrPoint>, near: Seq<int>, t: Reached, i: int, j: int)
    requires
        stands_on(t.tree, cells),
        forall|b: int| #![auto] near.contains(b) ==> 0 <= b < cells.len(),
        forall|b: int| #![auto] t.order.contains(b) ==> 0 <= b < cells.len(),
        0 <= i < t.tree.len(),
        0 <= j <= near.len(),
    ensures
        ({
            let u = reach_near(cells, near, t, i, j);
            &&& stands_on(u.tree, cells)
            &&& forall|b: int| #![auto] u.order.contains(b) ==> 0 <= b < cells.len()
            &&& u.order.len() - t.order.len() == u.tree.len() - t.tree.len()
        }),
    decreases near.len() - j,
{
    if j < near.len() {
        if t.order.contains(near[j]) {
            lemma_near_stands(cells, near, t, i, j + 1);
        } else {
            assert(near.contains(near[j]));
            let c = cells[near[j]];
            assert(cells.contains(c));
            let grown = with_leaf(t.tree, c.layer, c.p);
            let u = Reached { tree: with_child(grown, i, t.tree.len() as int), order: t.order.push(near[j]) };
            assert(stands_on(u.tree, cells)) by {
                assert forall|n: int| 0 <= n < u.tree.len() implies cells.contains(GrPoint { layer: (#[trigger] u.tree[n]).layer, p: u.tree[n].p }) by {
                    if n < t.tree.len() {
                        assert(cells.contains(GrPoint { layer: t.tree[n].layer, p: t.tree[n].p }));
                    }
                }
            }
            assert forall|b: int| #![auto] u.order.contains(b) implies 0 <= b < cells.len() by {
                let at = choose|at: int| 0 <= at < u.order.len() && u.order[at] == b;
                if at < t.order.len() {
                    assert(t.order[at] == b);
                    assert(t.order.contains(b));
                }
            }
            lemma_near_stands(cells, near, u, i, j + 1);
        }
    }
}

proof fn lemma_all_stands(cells: Seq<GrPoint>, near: Seq<Seq<int>>, t: Reached, i: int)
    requires
        stands_on(t.tree, cells),
        near.len() == cells.len(),
        forall|a: int, b: int| 0 <= a < near.len() && #[trigger] near[a].contains(b) ==> 0 <= b < cells.len(),
        forall|b: int| #![auto] t.order.contains(b) ==> 0 <= b < cells.len(),
        t.order.len() == t.tree.len(),
        0 <= i,
    ensures
        stands_on(reach_all(cells, near, t, i).tree, cells),
    decreases cells.len() - i,
{
    if i < t.order.len() && i < cells.len() {
        assert(t.order.contains(t.order[i]));
        let near_i = near[t.order[i]];
        lemma_near_stands(cells, near_i, t, i, 0);
        lemma_all_stands(cells, near, reach_near(cells, near_i, t, i, 0), i + 1);
    }
}

proof fn lemma_first_is_there(g: GridGraph, cells: Seq<GrPoint>, k: int, i: int)
    requires
        0 <= i <= cells.len(),
    ensures
        first_with_key(g, cells, k, i) matches Some(c) ==> cells.contains(c),
    decreases cells.len() - i,
{
    if i < cells.len() {
        lemma_first_is_there(g, cells, k, i + 1);
        assert(cells.contains(cells[i]));
    }
}

/// A route that covers cells of the grid alone gives a tree that lies in the grid, so that it can be taken over.
pub proof fn a_route_at_cells_gives_a_held_tree(g: GridGraph, route: Seq<GSegment>, t: GrTree)
    requires
        g.wf(),
        is_route_tree(g, route, Some(tnodes(t.nodes@))),
        can_walk(t.nodes@),
        ({
            let cells = route_cover(g, route, route.len() as int)->0.cells;
            forall|i: int| 0 <= i < cells.len() ==> g.has_cell((#[trigger] cells[i]).p) && 0 <= cells[i].layer < g.num_layers
        }),
    ensures
        g.holds_tree(t),
        g.can_commit(t, true),
{
    let r = route_cover(g, route, route.len() as int)->0;
    let (keys, cells, near) = choose|keys: Seq<i64>, cells: Seq<GrPoint>, near: Seq<Seq<int>>| #[trigger]
        is_laid_by_key(g, r, keys, cells, near) && Some(tnodes(t.nodes@)) == (if reach_from_first(cells, near).order.len() == cells.len() {
            Some(reach_from_first(cells, near).tree)
        } else {
            None
        });
    let first = Reached { tree: with_leaf(Seq::empty(), cells[0].layer, cells[0].p), order: seq![0int] };
    assert(cells.len() > 0) by {
        assert(has_key(g, r, cell_key(g, r.cells[0])));
        if cells.len() == 0 {
            assert(first.order.len() == 1);
            assert(reach_all(cells, near, first, 0) == first);
        }
    }
    assert(stands_on(first.tree, cells)) by {
        assert(cells.contains(cells[0]));
    }
    assert forall|a: int, b: int| 0 <= a < near.len() && #[trigger] near[a].contains(b) implies 0 <= b < cells.len() by {
        assert(are_near(g, r, keys, a, near[a]));
    }
    lemma_all_stands(cells, near, first, 0);
    let tree = tnodes(t.nodes@);
    assert forall|n: int| 0 <= n < t.nodes@.len() implies g.has_cell((#[trigger] t.nodes@[n]).p) && 0 <= t.nodes@[n].layer < g.num_layers by {
        let c = cell_of(tree[n]);
        assert(cells.contains(c));
        let a = choose|a: int| 0 <= a < cells.len() && cells[a] == c;
        lemma_first_is_there(g, r.cells, keys[a] as int, 0);
        assert(r.cells.contains(c));
        let i = choose|i: int| 0 <= i < r.cells.len() && r.cells[i] == c;
        assert(g.has_cell(r.cells[i].p));
    }
    a_tree_at_cells_is_held(g, t);
    g.a_held_tree_can_be_committed(t, true);
}

/// The cells of a walk are the two ends of each of its steps, step by step.
pub proof fn the_cells_of_a_walk_are_the_ends_of_its_steps(steps: Seq<(GrPoint, GrPoint)>, n: int)
    requires
        0 <= n,
    ensures
        step_cells(steps, n) == all_of(
            n,
            |k: int| seq![steps[k].0, steps[k].1],
        ),
    decreases n,
{
    let f = |k: int| seq![steps[k].0, steps[k].1];
    if n > 0 {
        the_cells_of_a_walk_are_the_ends_of_its_steps(steps, n - 1);
        lemma_all_next(n - 1, f);
    } else {
        lemma_all_none(f);
    }
    assert(step_cells(steps, n) =~= all_of(n, f));
}

/// A route is covered where each of its segments is, by the cells and the steps of each, one after the
/// other.
pub proof fn a_route_covers_what_its_segments_cover(g: GridGraph, route: Seq<GSegment>, n: int)
    requires
        0 <= n <= route.len(),
    ensures
        route_cover(g, route, n) is Some <==> (forall|k: int| 0 <= k < n ==> segment_cover(g, #[trigger] route[k]) is Some),
        route_cover(g, route, n) matches Some(r) ==> {
            &&& r.steps == all_of(n, |k: int| segment_cover(g, route[k])->Some_0.steps)
            &&& r.cells == all_of(
                n,
                |k: int|
                    seq![segment_cover(g, route[k])->Some_0.start] + step_cells(
                        segment_cover(g, route[k])->Some_0.steps,
                        segment_cover(g, route[k])->Some_0.steps.len() as int,
                    ),
            )
        },
    decreases n,
{
    let f = |k: int| segment_cover(g, route[k])->Some_0.steps;
    let h = |k: int|
        seq![segment_cover(g, route[k])->Some_0.start] + step_cells(
            segment_cover(g, route[k])->Some_0.steps,
            segment_cover(g, route[k])->Some_0.steps.len() as int,
        );
    if n > 0 {
        a_route_covers_what_its_segments_cover(g, route, n - 1);
        lemma_all_next(n - 1, f);
        lemma_all_next(n - 1, h);
        if let Some(r) = route_cover(g, route, n) {
            assert(r.cells =~= all_of(n - 1, h) + h(n - 1));
        }
        if route_cover(g, route, n - 1) is Some {
            assert(route_cover(g, route, n) is Some <==> segment_cover(g, route[n - 1]) is Some);
        }
    } else {
        lemma_all_none(f);
        lemma_all_none(h);
    }
}

/// A segment runs from end to end: a via from the lower of its layers to the higher, at its cell; a wire on
/// its one layer from the cell of its first end to that of its last. Every step leads from one cell of the
/// run to the next.
pub proof fn a_segment_runs_from_end_to_end(g: GridGraph, s: GSegment, i: int)
    requires
        g.num_layers <= i32::MAX,
        segment_run(g, s) is Some,
    ensures
        ({
            let r = segment_run(g, s)->0;
            let (a, b) = layers_of_segment(g, s);
            let (x0, x1) = rows_within(g.gridlines@[0]@, Interval { low: s.init_x, high: s.final_x })->0;
            let (y0, y1) = rows_within(g.gridlines@[1]@, Interval { low: s.init_y, high: s.final_y })->0;
            &&& 0 <= a < g.num_layers && 0 <= b < g.num_layers
            &&& is_still(s) ==> r.start == cell(lower(a, b), x0, y0) && r.start.layer + r.length == higher(a, b) && r.way == 0
            &&& !is_still(s) ==> a == b && r.start == cell(a, x0, y0) && (x0 == x1 || y0 == y1)
            &&& !is_still(s) && x0 != x1 ==> r.way == 1 && x0 + r.length == x1
            &&& !is_still(s) && x0 == x1 ==> r.way == 2 && y0 + r.length == y1
            &&& 0 <= i < r.length ==> run_steps(r)[i].0 == run_cell(r.start, r.way, i)
            &&& 0 < i < r.length ==> run_steps(r)[i].0 == run_steps(r)[i - 1].1
            &&& r.length > 0 ==> run_steps(r).len() == r.length && run_steps(r).last().1 == run_cell(r.start, r.way, r.length)
        }),
{
}

/// Whether the nodes of a tree are those of places in the order they were reached, each but the first below
/// an earlier one that it is near.
pub open spec fn hangs_by_near(cells: Seq<GrPoint>, near: Seq<Seq<int>>, t: Reached, k: int) -> bool {
    exists|p: int| 0 <= p < k && (#[trigger] t.tree[p]).children.contains(k) && near[t.order[p]].contains(t.order[k])
}

spec fn reach_holds(cells: Seq<GrPoint>, near: Seq<Seq<int>>, t: Reached) -> bool {
    &&& t.tree.len() == t.order.len()
    &&& t.order.no_duplicates()
    &&& forall|k: int| 0 <= k < t.order.len() ==> 0 <= (#[trigger] t.order[k]) < cells.len() && t.tree[k].layer == cells[t.order[k]].layer && t.tree[k].p == cells[t.order[k]].p
    &&& forall|k: int| 0 < k < t.order.len() ==> #[trigger] hangs_by_near(cells, near, t, k)
}

spec fn reach_grows(t: Reached, u: Reached) -> bool {
    &&& t.order.is_prefix_of(u.order)
    &&& t.tree.len() <= u.tree.len()
}

proof fn lemma_reach_near(cells: Seq<GrPoint>, near: Seq<Seq<int>>, list: Seq<int>, t: Reached, i: int, j: int)
    requires
        near.len() == cells.len(),
        reach_holds(cells, near, t),
        0 <= i < t.order.len(),
        list == near[t.order[i]],
        0 <= j <= list.len(),
        forall|k: int| 0 <= k < list.len() ==> 0 <= (#[trigger] list[k]) < cells.len(),
        forall|k: int| 0 <= k < j ==> t.order.contains(#[trigger] list[k]),
    ensures
        reach_holds(cells, near, reach_near(cells, list, t, i, j)),
        reach_grows(t, reach_near(cells, list, t, i, j)),
        forall|k: int| 0 <= k < list.len() ==> reach_near(cells, list, t, i, j).order.contains(#[trigger] list[k]),
    decreases list.len() - j,
{
    if j < list.len() {
        if t.order.contains(list[j]) {
            lemma_reach_near(cells, near, list, t, i, j + 1);
        } else {
            let c = cells[list[j]];
            let n = t.tree.len() as int;
            let u = Reached { tree: with_child(with_leaf(t.tree, c.layer, c.p), i, n), order: t.order.push(list[j]) };
            assert(u.order.no_duplicates()) by {
                assert forall|a: int, b: int| 0 <= a < u.order.len() && 0 <= b < u.order.len() && a != b implies u.order[a] != u.order[b] by {
                    if a == n {
                        assert(t.order.contains(t.order[b]));
                    } else if b == n {
                        assert(t.order.contains(t.order[a]));
                    }
                }
            }
            assert forall|k: int| 0 < k < u.order.len() implies #[trigger] hangs_by_near(cells, near, u, k) by {
                if k == n {
                    let kids = u.tree[i].children;
                    assert(kids[kids.len() - 1] == n);
                    assert(kids.contains(n));
                    assert(list.contains(list[j]));
                    assert(u.order[i] == t.order[i]);
                } else {
                    assert(hangs_by_near(cells, near, t, k));
                    let p = choose|p: int| 0 <= p < k && (#[trigger] t.tree[p]).children.contains(k) && near[t.order[p]].contains(t.order[k]);
                    let m = choose|m: int| 0 <= m < t.tree[p].children.len() && t.tree[p].children[m] == k;
                    assert(u.tree[p].children[m] == k);
                    assert(u.tree[p].children.contains(k));
                    assert(u.order[p] == t.order[p] && u.order[k] == t.order[k]);
                }
            }
            assert forall|k: int| 0 <= k < j + 1 implies u.order.contains(#[trigger] list[k]) by {
                if k < j {
                    assert(t.order.contains(list[k]));
                    let m = choose|m: int| 0 <= m < t.order.len() && t.order[m] == list[k];
                    assert(u.order[m] == list[k]);
                } else {
                    assert(u.order[n] == list[j]);
                }
            }
            lemma_reach_near(cells, near, list, u, i, j + 1);
            assert(t.order.is_prefix_of(u.order));
        }
    }
}

proof fn lemma_reach_all(cells: Seq<GrPoint>, near: Seq<Seq<int>>, t: Reached, i: int)
    requires
        near.len() == cells.len(),
        reach_holds(cells, near, t),
        0 <= i <= t.order.len(),
        forall|a: int, k: int| 0 <= a < near.len() && 0 <= k < near[a].len() ==> 0 <= (#[trigger] near[a][k]) < cells.len(),
        forall|p: int, k: int| 0 <= p < i && 0 <= k < near[t.order[p]].len() ==> t.order.contains(#[trigger] near[t.order[p]][k]),
    ensures
        ({
            let r = reach_all(cells, near, t, i);
            &&& reach_holds(cells, near, r)
            &&& reach_grows(t, r)
            &&& forall|p: int, k: int| 0 <= p < r.order.len() && 0 <= k < near[r.order[p]].len() ==> r.order.contains(#[trigger] near[r.order[p]][k])
        }),
    decreases cells.len() - i,
{
    lemma_places_fit(t.order, cells.len() as int);
    if i < t.order.len() {
        let list = near[t.order[i]];
        assert forall|k: int| 0 <= k < list.len() implies 0 <= (#[trigger] list[k]) < cells.len() by {
            assert(near[t.order[i]][k] == list[k]);
        }
        lemma_reach_near(cells, near, list, t, i, 0);
        let u = reach_near(cells, list, t, i, 0);
        assert forall|p: int, k: int| 0 <= p < i + 1 && 0 <= k < near[u.order[p]].len() implies u.order.contains(#[trigger] near[u.order[p]][k]) by {
            assert(u.order[p] == t.order[p]);
            if p < i {
                let v = near[t.order[p]][k];
                assert(t.order.contains(v));
                let m = choose|m: int| 0 <= m < t.order.len() && t.order[m] == v;
                assert(u.order[m] == v);
            } else {
                assert(u.order.contains(list[k]));
            }
        }
        lemma_reach_all(cells, near, u, i + 1);
    }
}

proof fn lemma_places_fit(order: Seq<int>, n: int)
    requires
        order.no_duplicates(),
        0 <= n,
        forall|k: int| 0 <= k < order.len() ==> 0 <= (#[trigger] order[k]) < n,
    ensures
        order.len() <= n,
{
    order.unique_seq_to_set();
    vstd::set_lib::lemma_int_range(0, n);
    assert(order.to_set().subset_of(vstd::set_lib::set_int_range(0, n)));
    vstd::set_lib::lemma_len_subset(order.to_set(), vstd::set_lib::set_int_range(0, n));
}

/// The tree over a route's cells reaches all that hangs together with the first: its nodes are cells, each
/// once, every one but the first hangs on an earlier one that a step joins it to, and with every cell all
/// those near it are reached.
pub proof fn a_tree_reaches_all_that_hangs_together(cells: Seq<GrPoint>, near: Seq<Seq<int>>)
    requires
        cells.len() > 0,
        near.len() == cells.len(),
        forall|a: int, k: int| 0 <= a < near.len() && 0 <= k < near[a].len() ==> 0 <= (#[trigger] near[a][k]) < cells.len(),
    ensures
        ({
            let r = reach_from_first(cells, near);
            &&& r.tree.len() == r.order.len()
            &&& r.order.len() > 0 && r.order[0] == 0
            &&& r.order.no_duplicates()
            &&& forall|k: int| 0 <= k < r.order.len() ==> 0 <= (#[trigger] r.order[k]) < cells.len() && cell_of(r.tree[k]) == cells[r.order[k]]
            &&& forall|k: int| 0 < k < r.order.len() ==> #[trigger] hangs_by_near(cells, near, r, k)
            &&& forall|p: int, k: int| 0 <= p < r.order.len() && 0 <= k < near[r.order[p]].len() ==> r.order.contains(#[trigger] near[r.order[p]][k])
        }),
{
    let t = Reached { tree: with_leaf(Seq::empty(), cells[0].layer, cells[0].p), order: seq![0int] };
    lemma_reach_all(cells, near, t, 0);
    let r = reach_from_first(cells, near);
    assert(t.order[0] == r.order[0]);
}

/// The cell that a pin is bound to is the first of its cells that the tree stands on, and one is found
/// wherever the tree stands on one.
pub proof fn a_pin_is_bound_where_the_tree_stands(g: GridGraph, t: Seq<TNode>, cells: Seq<GrPoint>, i: int)
    requires
        0 <= i <= cells.len(),
    ensures
        match first_on_tree(g, t, cells, i) {
            Some(c) => exists|k: int|
                i <= k < cells.len() && #[trigger] cells[k] == c && is_on_tree(g, t, c) && (forall|j: int| i <= j < k ==> !is_on_tree(g, t, #[trigger] cells[j])),
            None => forall|j: int| i <= j < cells.len() ==> !is_on_tree(g, t, #[trigger] cells[j]),
        },
    decreases cells.len() - i,
{
    if i < cells.len() {
        if is_on_tree(g, t, cells[i]) {
            assert(cells[i] == first_on_tree(g, t, cells, i)->0);
        } else {
            a_pin_is_bound_where_the_tree_stands(g, t, cells, i + 1);
            if let Some(c) = first_on_tree(g, t, cells, i) {
                let k = choose|k: int|
                    i + 1 <= k < cells.len() && #[trigger] cells[k] == c && is_on_tree(g, t, c) && (forall|j: int|
                        i + 1 <= j < k ==> !is_on_tree(g, t, #[trigger] cells[j]));
                assert(cells[k] == c);
                assert forall|j: int| i <= j < k implies !is_on_tree(g, t, #[trigger] cells[j]) by {}
            }
        }
    }
}

} // verus!
