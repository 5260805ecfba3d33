//! Setting the router's edges up: obstructions applied, transition levels thinned, adjustments made.

use crate::lists::{is_first_of};
use vstd::prelude::*;

use super::obstructions::{direction_at, rect_lists, Found, Obstruction, RouteLimits};
use crate::adjust::{
    adjust_tile_set, apply_obstruction_adjustment, blocked_tiles, blocked_tiles_fit, compute_region_adjustments, compute_user_layer_adjustments, covered_span, first_cells,
    init_blocked_intervals, int_cells, intervals_applied, layers_scaled, obstructed, obstruction_fits, rect_of, region_cap, region_cells, region_outside, region_tiles,
    resources_saved, save_resources_before_adjustments, walked, EdgesView, LayerScale, RegionCaps, RouterEdges,
};
use crate::adjust::{halved, Tile};
use crate::capacity::{Direction, RoutingLayer};
use crate::graph2d::{before, CellSet};
use crate::grids::{fits, in_grid2};
use crate::text::texts;
use crate::Rect;

verus! {

/// The edges after an obstruction.
#[verifier::opaque]
pub open spec fn one_applied(v: EdgesView, o: Obstruction, layers: Seq<RoutingLayer>) -> EdgesView {
    obstructed(v, o.rect, o.level as int, direction_at(layers, o.level as int) == Some(Direction::Vertical), o.is_macro)
}

/// Whether an obstruction can be applied to the edges.
#[verifier::opaque]
pub open spec fn one_fits(v: EdgesView, o: Obstruction, layers: Seq<RoutingLayer>) -> bool {
    obstruction_fits(v, o.rect, o.level as int, direction_at(layers, o.level as int) == Some(Direction::Vertical), o.is_macro)
}

/// The edges after the first `n` obstructions of a stream.
pub open spec fn stream_applied(v: EdgesView, s: Seq<Obstruction>, layers: Seq<RoutingLayer>, n: int) -> EdgesView
    decreases n,
{
    if n <= 0 { v } else { one_applied(stream_applied(v, s, layers, n - 1), s[n - 1], layers) }
}

/// Whether each obstruction of a stream can be applied to the edges as they are by then.
pub open spec fn stream_fits(v: EdgesView, s: Seq<Obstruction>, layers: Seq<RoutingLayer>) -> bool {
    forall|k: int| 0 <= k < s.len() ==> one_fits(stream_applied(v, s, layers, k), #[trigger] s[k], layers)
}

fn apply_one(e: &mut RouterEdges, o: Obstruction, layers: &[RoutingLayer])
    requires
        old(e).wf(),
        one_fits(old(e)@, o, layers@),
    ensures
        final(e).wf(),
        final(e)@ == one_applied(old(e)@, o, layers@),
{
    proof {
        reveal(one_applied);
        reveal(one_fits);
    }
    let direction = super::obstructions::direction_of(layers, o.level);
    apply_obstruction_adjustment(e, o.rect, o.level, direction, o.is_macro);
}

/// Applies a stream of obstructions in order.
pub fn apply_stream(e: &mut RouterEdges, s: &Vec<Obstruction>, layers: &[RoutingLayer])
    requires
        old(e).wf(),
        stream_fits(old(e)@, s@, layers@),
    ensures
        final(e).wf(),
        final(e)@ == stream_applied(old(e)@, s@, layers@, s@.len() as int),
{
    let ghost v = e@;
    let mut k: usize = 0;
    while k < s.len()
        invariant
            k <= s@.len(),
            e.wf(),
            stream_fits(v, s@, layers@),
            e@ == stream_applied(v, s@, layers@, k as int),
        decreases s@.len() - k,
    {
        apply_one(e, s[k], layers);
        k += 1;
    }
}

// ---- transition levels ----

/// Whether a rectangle spans a tile: it lies between the tiles of its corners, the upper ones left out.
pub open spec fn spans_tile(v: EdgesView, r: Rect, c: (i32, i32)) -> bool {
    let (_, _, first, last) = blocked_tiles(v, r);
    first.0 <= c.0 < last.0 && first.1 <= c.1 < last.1
}

/// The tiles that the first `n` rectangles span.
pub open spec fn spanned_tiles(v: EdgesView, rects: Seq<Rect>, n: int) -> Set<(i32, i32)> {
    Set::new(|c: (i32, i32)| exists|i: int| 0 <= i < n && spans_tile(v, #[trigger] rects[i], c))
}

/// Whether cells are a set in order.
pub open spec fn lists_in_order(cells: Seq<(i32, i32)>, s: Set<(i32, i32)>) -> bool {
    &&& cells.to_set() == s
    &&& forall|i: int, j: int| 0 <= i < j < cells.len() ==> before(#[trigger] cells[i], #[trigger] cells[j])
}

/// The cells of a set in order.
pub open spec fn in_cell_order(s: Set<(i32, i32)>) -> Seq<(i32, i32)> {
    choose|cells: Seq<(i32, i32)>| lists_in_order(cells, s)
}

/// A set has one list in order.
pub proof fn a_set_has_one_list_in_order(a: Seq<(i32, i32)>, b: Seq<(i32, i32)>, s: Set<(i32, i32)>)
    requires
        lists_in_order(a, s),
        lists_in_order(b, s),
    ensures
        a == b,
{
    lemma_order_prefix(a, b, s, a.len() as int);
    lemma_order_prefix(b, a, s, b.len() as int);
    assert(a =~= b);
}

proof fn lemma_order_prefix(a: Seq<(i32, i32)>, b: Seq<(i32, i32)>, s: Set<(i32, i32)>, n: int)
    requires
        lists_in_order(a, s),
        lists_in_order(b, s),
        0 <= n <= a.len(),
    ensures
        n <= b.len(),
        forall|i: int| 0 <= i < n ==> a[i] == b[i],
    decreases n,
{
    if n > 0 {
        lemma_order_prefix(a, b, s, n - 1);
        assert(a.to_set().contains(a[n - 1]));
        assert(b.contains(a[n - 1]));
        let k = choose|k: int| 0 <= k < b.len() && b[k] == a[n - 1];
        if k < n - 1 {
            assert(before(a[k], a[n - 1]));
        }
        if k > n - 1 {
            assert(b.to_set().contains(b[n - 1]));
            assert(a.contains(b[n - 1]));
            let m = choose|m: int| 0 <= m < a.len() && a[m] == b[n - 1];
            assert(before(b[n - 1], b[k]));
            if m < n - 1 {
                assert(before(b[m], b[n - 1]));
            } else if m > n - 1 {
                assert(before(a[n - 1], a[m]));
            }
        }
    }
}

/// Whether the tiles of every rectangle can be found.
pub open spec fn tiles_fit(v: EdgesView, rects: Seq<Rect>) -> bool {
    forall|i: int| 0 <= i < rects.len() ==> blocked_tiles_fit(v, #[trigger] rects[i])
}

/// The tiles under rectangles, in order.
fn tiles_under(e: &RouterEdges, rects: &Vec<Rect>) -> (tiles: CellSet)
    requires
        e.wf(),
        tiles_fit(e@, rects@),
    ensures
        tiles.wf(),
        tiles@ == spanned_tiles(e@, rects@, rects@.len() as int),
{
    let mut tiles = CellSet::new();
    let mut i: usize = 0;
    assert(tiles@ =~= spanned_tiles(e@, rects@, 0));
    while i < rects.len()
        invariant
            i <= rects@.len(),
            e.wf(),
            tiles_fit(e@, rects@),
            tiles.wf(),
            tiles@ == spanned_tiles(e@, rects@, i as int),
        decreases rects@.len() - i,
    {
        assert(blocked_tiles_fit(e@, rects@[i as int]));
        let (_, _, first, last) = e.get_blocked_tiles(rects[i]);
        let ghost s0 = tiles@;
        let mut y: i32 = first.1;
        while y < last.1
            invariant
                first.1 <= y,
                y <= last.1 || y == first.1,
                tiles.wf(),
                forall|c: (i32, i32)| #[trigger] tiles@.contains(c) <==> s0.contains(c) || (first.0 <= c.0 < last.0 && first.1 <= c.1 < y),
            decreases last.1 - y,
        {
            let mut x: i32 = first.0;
            while x < last.0
                invariant
                    first.0 <= x,
                    x <= last.0 || x == first.0,
                    first.1 <= y < last.1,
                    tiles.wf(),
                    forall|c: (i32, i32)| #[trigger] tiles@.contains(c) <==> s0.contains(c) || (first.0 <= c.0 < last.0 && first.1 <= c.1 < y) || (first.0 <= c.0 < x && c.1 == y),
                decreases last.0 - x,
            {
                tiles.insert(x, y);
                x += 1;
            }
            y += 1;
        }
        i += 1;
        proof {
            let want = spanned_tiles(e@, rects@, i as int);
            assert forall|c: (i32, i32)| #[trigger] tiles@.contains(c) <==> want.contains(c) by {
                if spans_tile(e@, rects@[i - 1], c) {
                    assert(want.contains(c));
                }
                if s0.contains(c) {
                    let k = choose|k: int| 0 <= k < i - 1 && spans_tile(e@, #[trigger] rects@[k], c);
                    assert(spans_tile(e@, rects@[k], c));
                }
                if want.contains(c) {
                    let k = choose|k: int| 0 <= k < i && spans_tile(e@, #[trigger] rects@[k], c);
                    if k < i - 1 {
                        assert(s0.contains(c));
                    }
                }
            }
            assert(tiles@ =~= want);
        }
    }
    tiles
}

/// The edges with the first `n` transition levels thinned: on each, every tile under a macro one level below.
pub open spec fn transitions_applied(v: EdgesView, levels: Seq<i32>, macros: Seq<Seq<Rect>>, layers: Seq<RoutingLayer>, n: int) -> EdgesView
    decreases n,
{
    if n <= 0 {
        v
    } else {
        let w = transitions_applied(v, levels, macros, layers, n - 1);
        let l = levels[n - 1] as int;
        walked(
            w, int_cells(in_cell_order(spanned_tiles(v, macros[l - 1], macros[l - 1].len() as int))), direction_at(layers, l) == Some(Direction::Horizontal), l,
            |x: int, y: int, cap: u16| halved(cap), true)
    }
}

/// Whether the transition levels are levels of the grid with macros one level below whose tiles lie in it.
pub open spec fn transitions_fit(v: EdgesView, levels: Seq<i32>, macros: Seq<Seq<Rect>>) -> bool {
    forall|k: int| 0 <= k < levels.len() ==> {
        &&& 1 <= (#[trigger] levels[k]) <= v.num_layers
        &&& levels[k] - 1 < macros.len()
        &&& tiles_fit(v, macros[levels[k] - 1])
        &&& forall|c: (i32, i32)| #[trigger] spanned_tiles(v, macros[levels[k] - 1], macros[levels[k] - 1].len() as int).contains(c) ==> 0 <= c.0 < v.x_grid && 0 <= c.1 < v.y_grid
    }
}

proof fn lemma_walked_frame(v: EdgesView, cells: Seq<(int, int)>, horizontal: bool, layer: int, new_cap: spec_fn(int, int, u16) -> u16, is_reduce: bool)
    ensures
        ({
            let w = walked(v, cells, horizontal, layer, new_cap, is_reduce);
            w.die == v.die && w.tile_size == v.tile_size && w.x_grid == v.x_grid && w.y_grid == v.y_grid && w.num_layers == v.num_layers && w.track_pitches == v.track_pitches
        }),
    decreases cells.len(),
{
    if cells.len() > 0 {
        lemma_walked_frame(v, cells.drop_last(), horizontal, layer, new_cap, is_reduce);
    }
}

proof fn lemma_same_tiles(v: EdgesView, w: EdgesView, rects: Seq<Rect>)
    requires
        w.die == v.die && w.tile_size == v.tile_size && w.x_grid == v.x_grid && w.y_grid == v.y_grid,
        tiles_fit(v, rects),
    ensures
        tiles_fit(w, rects),
        spanned_tiles(v, rects, rects.len() as int) == spanned_tiles(w, rects, rects.len() as int),
{
    assert forall|i: int| 0 <= i < rects.len() implies blocked_tiles_fit(w, #[trigger] rects[i]) by {
        assert(blocked_tiles_fit(v, rects[i]));
    }
    let n = rects.len() as int;
    assert forall|c: (i32, i32)| #[trigger] spanned_tiles(v, rects, n).contains(c) <==> spanned_tiles(w, rects, n).contains(c) by {
        if spanned_tiles(v, rects, n).contains(c) {
            let i = choose|i: int| 0 <= i < n && spans_tile(v, #[trigger] rects[i], c);
            assert(spans_tile(w, rects[i], c));
        }
        if spanned_tiles(w, rects, n).contains(c) {
            let i = choose|i: int| 0 <= i < n && spans_tile(w, #[trigger] rects[i], c);
            assert(spans_tile(v, rects[i], c));
        }
    }
    assert(spanned_tiles(v, rects, n) =~= spanned_tiles(w, rects, n));
}

/// Halves, on every transition level, the edges of the tiles under the macros one level below.
pub fn adjust_transition_layers(e: &mut RouterEdges, levels: &Vec<i32>, macros: &Vec<Vec<Rect>>, layers: &[RoutingLayer])
    requires
        old(e).wf(),
        transitions_fit(old(e)@, levels@, rect_lists(macros@)),
    ensures
        final(e).wf(),
        final(e)@ == transitions_applied(old(e)@, levels@, rect_lists(macros@), layers@, levels@.len() as int),
{
    let ghost v = e@;
    let ghost m = rect_lists(macros@);
    let mut k: usize = 0;
    while k < levels.len()
        invariant
            k <= levels@.len(),
            e.wf(),
            m == rect_lists(macros@),
            transitions_fit(v, levels@, m),
            e@ == transitions_applied(v, levels@, m, layers@, k as int),
            e@.die == v.die && e@.tile_size == v.tile_size && e@.x_grid == v.x_grid && e@.y_grid == v.y_grid && e@.num_layers == v.num_layers,
        decreases levels@.len() - k,
    {
        let l: i32 = levels[k];
        let ghost list = m[l - 1];
        assert(1 <= levels@[k as int] <= v.num_layers);
        assert(m.len() == macros@.len());
        assert(list == macros@[l - 1]@);
        proof {
            lemma_same_tiles(v, e@, list);
        }
        let tiles = tiles_under(e, &macros[(l - 1) as usize]);
        let ghost s = spanned_tiles(v, list, list.len() as int);
        let ghost w = e@;
        proof {
            assert(lists_in_order(tiles.cells@, s));
            a_set_has_one_list_in_order(tiles.cells@, in_cell_order(s), s);
            assert forall|i: int| 0 <= i < tiles.cells@.len() implies #[trigger] e.holds_tile((tiles.cells@[i].0, tiles.cells@[i].1, l)) by {
                assert(tiles.cells@.to_set().contains(tiles.cells@[i]));
                assert(s.contains(tiles.cells@[i]));
            }
            lemma_walked_frame(w, int_cells(tiles.cells@), direction_at(layers@, l as int) == Some(Direction::Horizontal), l as int, |x: int, y: int, cap: u16| halved(cap), true);
        }
        adjust_tile_set(e, tiles.cells.as_slice(), l, super::obstructions::direction_of(layers, l));
        k += 1;
    }
}


// ---- all of it ----

/// Every blocked tile's edge reduced.
#[verifier::opaque]
pub open spec fn all_intervals_applied(v: EdgesView) -> EdgesView {
    intervals_applied(v, |k: (bool, Tile)| v.blocked.dom().contains(k))
}

/// A region to adjust on a level: the pitch of the level's tracks, -1 where it has none, and the new capacities.
#[derive(Debug)]
pub struct RegionChange {
    pub region: Rect,
    pub layer: i32,
    pub use_pitch: i32,
    pub caps: RegionCaps,
}

/// A region adjustment that is refused: the region lies outside the die.
#[derive(Debug, Clone, Copy, PartialEq, Eq, Structural)]
pub struct RegionRefused {
    pub layer: i32,
}

/// The edges with one region adjusted.
pub open spec fn region_applied(v: EdgesView, c: RegionChange, layers: Seq<RoutingLayer>) -> EdgesView {
    let (fb, lb, first, last) = blocked_tiles(v, c.region);
    walked(
        v, region_cells(first, last), direction_at(layers, c.layer as int) != Some(Direction::Vertical), c.layer as int,
        |x: int, y: int, cap: u16| region_cap(c.caps, first, last, x, y, cap), true,
    )
}

/// The edges with the first `n` regions adjusted, in order.
pub open spec fn regions_applied(v: EdgesView, changes: Seq<RegionChange>, layers: Seq<RoutingLayer>, n: int) -> EdgesView
    decreases n,
{
    if n <= 0 { v } else { region_applied(regions_applied(v, changes, layers, n - 1), changes[n - 1], layers) }
}

/// Whether a region on the die is adjusted within `i32` and on the grid.
pub open spec fn region_fits(v: EdgesView, c: RegionChange, layers: Seq<RoutingLayer>) -> bool {
    !region_outside(v.die, c.region) ==> {
        let (fb, lb, first, last) = blocked_tiles(v, c.region);
        let vertical = direction_at(layers, c.layer as int) == Some(Direction::Vertical);
        let f = covered_span(c.region, rect_of(fb), true, vertical);
        let l = covered_span(c.region, rect_of(lb), false, vertical);
        &&& blocked_tiles_fit(v, c.region)
        &&& fits(f.1 - f.0) && f.1 - f.0 > i32::MIN
        &&& fits(l.1 - l.0) && l.1 - l.0 > i32::MIN
        &&& 1 <= c.layer <= v.num_layers
        &&& in_grid2(first.0, first.1, v.x_grid, v.y_grid)
        &&& in_grid2(last.0, last.1, v.x_grid, v.y_grid)
        &&& c.caps.first@.len() == 0x1_0000
        &&& c.caps.last@.len() == 0x1_0000
        &&& c.caps.inner@.len() == 0x1_0000
    }
}

/// Whether two states of the edges are of one grid.
pub open spec fn same_grid(v: EdgesView, w: EdgesView) -> bool {
    w.die == v.die && w.tile_size == v.tile_size && w.x_grid == v.x_grid && w.y_grid == v.y_grid && w.num_layers == v.num_layers
}

/// The first of the regions from the `k`-th on that lies outside the die.
pub open spec fn first_outside(die: Rect, changes: Seq<RegionChange>, k: int) -> Option<int>
    decreases changes.len() - k,
{
    if k >= changes.len() {
        None
    } else if region_outside(die, changes[k].region) {
        Some(k)
    } else {
        first_outside(die, changes, k + 1)
    }
}

proof fn lemma_layers_frame(v: EdgesView, scales: Seq<Option<LayerScale>>, directions: Seq<Option<Direction>>, min: int, n: int)
    ensures
        same_grid(v, layers_scaled(v, scales, directions, min, n)),
    decreases n,
{
    if n > 0 {
        lemma_layers_frame(v, scales, directions, min, n - 1);
        let w = layers_scaled(v, scales, directions, min, n - 1);
        if let (Some(s), Some(d)) = (scales[n], directions[n]) {
            let hor = d == Direction::Horizontal;
            lemma_walked_frame(w, first_cells(w.x_grid, w.y_grid, hor), hor, n, |x: int, y: int, cap: u16| s.scaled@[cap as int], s.is_reduce);
        }
    }
}

/// Adjusts the regions in order, up to the first that lies outside the die.
fn adjust_regions(e: &mut RouterEdges, changes: &[RegionChange], layers: &[RoutingLayer]) -> (r: Result<(), RegionRefused>)
    requires
        old(e).wf(),
        forall|k: int| 0 <= k < changes@.len() ==> region_fits(old(e)@, #[trigger] changes@[k], layers@),
    ensures
        final(e).wf(),
        match r {
            Ok(()) => first_outside(old(e)@.die, changes@, 0) is None && final(e)@ == regions_applied(old(e)@, changes@, layers@, changes@.len() as int),
            Err(x) => first_outside(old(e)@.die, changes@, 0) matches Some(k) && 0 <= k < changes@.len() && x.layer == changes@[k].layer && final(e)@ == regions_applied(
                old(e)@,
                changes@,
                layers@,
                k,
            ),
        },
{
    let ghost v = e@;
    let mut k: usize = 0;
    while k < changes.len()
        invariant
            e.wf(),
            v == old(e)@,
            k <= changes@.len(),
            forall|k: int| 0 <= k < changes@.len() ==> region_fits(v, #[trigger] changes@[k], layers@),
            e@ == regions_applied(v, changes@, layers@, k as int),
            same_grid(v, e@),
            first_outside(v.die, changes@, 0) == first_outside(v.die, changes@, k as int),
        decreases changes@.len() - k,
    {
        let c = &changes[k];
        let ghost w = e@;
        assert(region_fits(v, changes@[k as int], layers@));
        assert(blocked_tiles(w, c.region) == blocked_tiles(v, c.region));
        let direction = super::obstructions::direction_of(layers, c.layer);
        match region_tiles(e, c.region, direction, c.use_pitch) {
            Ok(tiles) => {
                compute_region_adjustments(e, tiles, c.layer, &c.caps, direction);
                proof {
                    let (f, l) = (blocked_tiles(w, c.region).2, blocked_tiles(w, c.region).3);
                    let new_cap = |x: int, y: int, cap: u16| region_cap(c.caps, f, l, x, y, cap);
                    lemma_walked_frame(w, region_cells(f, l), direction != Some(Direction::Vertical), c.layer as int, new_cap, true);
                }
            },
            Err(_) => {
                return Err(RegionRefused { layer: c.layer });
            },
        }
        k += 1;
    }
    Ok(())
}

/// The edges set up, but for the regions: the obstructions applied in order, the transition levels thinned, the
/// blocked intervals taken off, what is left kept as the real capacities, and the adjusted levels scaled.
pub open spec fn set_up(
    v: EdgesView, stream: Seq<Obstruction>, macros: Seq<Seq<Rect>>, transitions: Seq<i32>, scales: Seq<Option<LayerScale>>, directions: Seq<Option<Direction>>,
    layers: Seq<RoutingLayer>, min: int, max: int,
) -> EdgesView {
    let a = stream_applied(v, stream, layers, stream.len() as int);
    let b = transitions_applied(a, transitions, macros, layers, transitions.len() as int);
    layers_scaled(resources_saved(all_intervals_applied(b)), scales, directions, min, max)
}

proof fn lemma_stream_frame(v: EdgesView, s: Seq<Obstruction>, layers: Seq<RoutingLayer>, n: int)
    requires
        0 <= n <= s.len(),
    ensures
        ({
            let w = stream_applied(v, s, layers, n);
            w.die == v.die && w.tile_size == v.tile_size && w.x_grid == v.x_grid && w.y_grid == v.y_grid && w.num_layers == v.num_layers
        }),
    decreases n,
{
    if n > 0 {
        lemma_stream_frame(v, s, layers, n - 1);
        reveal(one_applied);
    }
}

proof fn lemma_transitions_frame(v: EdgesView, levels: Seq<i32>, macros: Seq<Seq<Rect>>, layers: Seq<RoutingLayer>, n: int)
    requires
        0 <= n <= levels.len(),
    ensures
        same_grid(v, transitions_applied(v, levels, macros, layers, n)),
    decreases n,
{
    if n > 0 {
        lemma_transitions_frame(v, levels, macros, layers, n - 1);
        let w = transitions_applied(v, levels, macros, layers, n - 1);
        let l = levels[n - 1] as int;
        lemma_walked_frame(
            w, int_cells(in_cell_order(spanned_tiles(v, macros[l - 1], macros[l - 1].len() as int))), direction_at(layers, l) == Some(Direction::Horizontal), l,
            |x: int, y: int, cap: u16| halved(cap), true);
    }
}

/// What was made of the edges: whether there are macros or pads, the obstructions applied, and the transition
/// levels.
#[derive(Debug)]
pub struct Adjusted {
    pub has_macros_or_pads: bool,
    pub stream: Vec<Obstruction>,
    pub transition_layers: Vec<i32>,
}

/// Sets the router's edges up from what stands in the way, the transition levels, and the adjustments of the
/// levels and then of the regions. The underflow warnings go to the end of the log.
///
/// Refused at the first region that lies outside the die; the warnings then stay with the edges.
pub fn setup_adjust(
    e: &mut RouterEdges, found: Found, transition_layers: Vec<i32>, scales: &[Option<LayerScale>], directions: &[Option<Direction>], regions: &[RegionChange], layers: &[RoutingLayer],
    lim: RouteLimits, log: &mut Vec<String>,
) -> (r: Result<Adjusted, RegionRefused>)
    requires
        old(e).wf(),
        stream_fits(old(e)@, found.stream@, layers@),
        transitions_fit(old(e)@, transition_layers@, rect_lists(found.macro_rects@)),
        lim.max <= old(e).num_layers,
        lim.max < scales@.len(),
        lim.max < directions@.len(),
        forall|l: int| 1 <= l <= lim.max && scales@[l] is Some ==> (#[trigger] scales@[l])->0.scaled@.len() == 0x1_0000,
        forall|k: int| 0 <= k < regions@.len() ==> region_fits(old(e)@, #[trigger] regions@[k], layers@),
    ensures
        final(e).wf(),
        ({
            let v = set_up(
                old(e)@, found.stream@, rect_lists(found.macro_rects@), transition_layers@, scales@, directions@, layers@, lim.min as int, lim.max as int);
            match r {
                Ok(a) => {
                    let w = regions_applied(v, regions@, layers@, regions@.len() as int);
                    &&& first_outside(old(e)@.die, regions@, 0) is None
                    &&& final(e)@ == (EdgesView { log: Seq::empty(), ..w })
                    &&& texts(final(log)@) == texts(old(log)@) + texts(found.log@) + w.log
                    &&& a.has_macros_or_pads == found.has_macros_or_pads
                    &&& a.stream@ == found.stream@
                    &&& a.transition_layers@ == transition_layers@
                },
                Err(x) => {
                    &&& first_outside(old(e)@.die, regions@, 0) matches Some(k)
                    &&& 0 <= k < regions@.len()
                    &&& x.layer == regions@[k].layer
                    &&& final(e)@ == regions_applied(v, regions@, layers@, k)
                    &&& texts(final(log)@) == texts(old(log)@) + texts(found.log@)
                },
            }
        }),
{
    let ghost v = e@;
    let ghost macros = rect_lists(found.macro_rects@);
    let mut found = found;
    apply_stream(e, &found.stream, layers);
    proof {
        lemma_stream_frame(v, found.stream@, layers@, found.stream@.len() as int);
        let a = e@;
        assert forall|k: int| 0 <= k < transition_layers@.len() implies {
            &&& 1 <= (#[trigger] transition_layers@[k]) <= a.num_layers
            &&& transition_layers@[k] - 1 < macros.len()
            &&& tiles_fit(a, macros[transition_layers@[k] - 1])
            &&& forall|c: (i32, i32)| #[trigger] spanned_tiles(a, macros[transition_layers@[k] - 1], macros[transition_layers@[k] - 1].len() as int).contains(c) ==> 0 <= c.0 < a.x_grid && 0 <= c.1 < a.y_grid
        } by {
            lemma_same_tiles(v, a, macros[transition_layers@[k] - 1]);
        }
        lemma_transitions_frame(a, transition_layers@, macros, layers@, transition_layers@.len() as int);
    }
    adjust_transition_layers(e, &transition_layers, &found.macro_rects, layers);
    proof {
        reveal(all_intervals_applied);
    }
    init_blocked_intervals(e);
    save_resources_before_adjustments(e);
    let ghost saved = e@;
    compute_user_layer_adjustments(e, scales, directions, lim.min, lim.max);
    let ghost log0 = log@;
    let ghost first = found.log@;
    log.append(&mut found.log);
    proof {
        lemma_layers_frame(saved, scales@, directions@, lim.min as int, lim.max as int);
        assert(same_grid(v, e@));
        assert forall|k: int| 0 <= k < regions@.len() implies region_fits(e@, #[trigger] regions@[k], layers@) by {
            assert(region_fits(v, regions@[k], layers@));
            assert(blocked_tiles(e@, regions@[k].region) == blocked_tiles(v, regions@[k].region));
        }
        assert(texts(log@) =~= texts(log0) + texts(first));
    }
    match adjust_regions(e, regions, layers) {
        Ok(()) => {},
        Err(x) => {
            return Err(x);
        },
    }
    let ghost done = e@;
    let mut warnings: Vec<String> = Vec::new();
    std::mem::swap(&mut warnings, &mut e.log);
    let ghost more = warnings@;
    log.append(&mut warnings);
    proof {
        assert(texts(log@) =~= texts(log0) + texts(first) + texts(more));
        assert(texts(e.log@) =~= Seq::<Seq<char>>::empty());
        assert(e@.e3 =~= done.e3);
        assert(e@.e2 =~= done.e2);
        assert(e@.blocked =~= done.blocked);
        assert(e@ =~= (EdgesView { log: Seq::empty(), ..done }));
    }
    Ok(Adjusted { has_macros_or_pads: found.has_macros_or_pads, stream: found.stream, transition_layers })
}

/// The region refused is the first that lies outside the die, and one is refused wherever one
/// does.
pub proof fn the_region_refused_is_the_first_outside(die: Rect, changes: Seq<RegionChange>, k: int)
    requires
        0 <= k <= changes.len(),
    ensures
        is_first_of(first_outside(die, changes, k), k, changes.len() as int, |i: int| region_outside(die, changes[i].region)),
    decreases changes.len() - k,
{
    if k < changes.len() {
        the_region_refused_is_the_first_outside(die, changes, k + 1);
    }
}

} // verus!
