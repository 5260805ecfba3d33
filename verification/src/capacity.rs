//! Routing layers, and how much track capacity each grid cell has.

use crate::lists::{is_least_of, lemma_sum_next, lemma_sum_none, sum_of};
use vstd::prelude::*;
use vstd::string::StringExecFns;

use crate::grids::{at2, at3, fits, in_grid2, in_grid3, lemma_at2, lemma_at3, tdiv};
use crate::init::CoreGrid;
use crate::tracks::RoutingTracks;
use crate::vecs::filled;
use crate::Rect;

verus! {

/// A layer's preferred routing direction.
#[derive(Debug, Clone, Copy, PartialEq, Eq, Structural)]
pub enum Direction {
    Horizontal,
    Vertical,
}

/// A routing layer, as the setup stage reads it.
#[derive(Debug)]
pub struct RoutingLayer {
    pub name: String,
    /// The technology's own routing level, not the index this layer is stored under.
    pub routing_level: i32,
    pub direction: Option<Direction>,
    pub has_track_grid: bool,
    /// Backside layers are exempt from the adjacent-direction check.
    pub is_backside: bool,
}

impl Clone for RoutingLayer {
    fn clone(&self) -> (r: RoutingLayer)
        ensures
            r == *self,
    {
        RoutingLayer {
            name: self.name.clone(),
            routing_level: self.routing_level,
            direction: self.direction,
            has_track_grid: self.has_track_grid,
            is_backside: self.is_backside,
        }
    }
}

/// What rejected a technology's layer stack.
#[derive(Debug)]
pub enum LayerError {
    /// A layer with no preferred direction.
    NoDirection { layer: String },
    /// A layer inside the routing range with no track grid.
    NoTrackGrid { layer: String },
    /// Two adjacent layers preferring the same direction.
    SameDirection { a: String, b: String, direction: Direction },
}

/// The message of a rejected layer stack.
pub open spec fn layer_error_text(e: LayerError) -> Seq<char> {
    match e {
        LayerError::NoDirection { layer } => "layer "@ + layer@ + " does not have a valid direction"@,
        LayerError::NoTrackGrid { layer } => "layer "@ + layer@ + " does not have a track grid"@,
        LayerError::SameDirection { a, b, direction } => "layers "@ + a@ + " and "@ + b@
            + " have the same preferred routing direction ("@ + (if direction == Direction::Horizontal {
            "Horizontal"@
        } else {
            "Vertical"@
        }) + ")"@,
    }
}

impl LayerError {
    /// The message of the error.
    pub fn message(&self) -> (s: String)
        ensures
            s@ == layer_error_text(*self),
    {
        match self {
            LayerError::NoDirection { layer } => {
                let mut s = String::from_str("layer ");
                s.append(layer.as_str());
                s.append(" does not have a valid direction");
                s
            },
            LayerError::NoTrackGrid { layer } => {
                let mut s = String::from_str("layer ");
                s.append(layer.as_str());
                s.append(" does not have a track grid");
                s
            },
            LayerError::SameDirection { a, b, direction } => {
                let mut s = String::from_str("layers ");
                s.append(a.as_str());
                s.append(" and ");
                s.append(b.as_str());
                s.append(" have the same preferred routing direction (");
                match direction {
                    Direction::Horizontal => s.append("Horizontal"),
                    Direction::Vertical => s.append("Vertical"),
                }
                s.append(")");
                s
            },
        }
    }
}

/// Whether a layer inside the routing range has no track grid.
pub open spec fn lacks_tracks(l: RoutingLayer, min: int, max: int) -> bool {
    !l.has_track_grid && min <= l.routing_level <= max
}

/// Whether a layer is rejected: layers of routing level 0 never are.
pub open spec fn layer_rejected(l: RoutingLayer, min: int, max: int) -> bool {
    l.routing_level != 0 && (l.direction is None || lacks_tracks(l, min, max))
}

/// The routing layers in order, each with its running number from 1: layers of routing level 0 are
/// skipped and take no number.
pub open spec fn numbered_layers(s: Seq<RoutingLayer>) -> Seq<(i32, RoutingLayer)>
    decreases s.len(),
{
    if s.len() == 0 {
        Seq::empty()
    } else {
        let rest = numbered_layers(s.drop_last());
        if s.last().routing_level == 0 {
            rest
        } else {
            rest.push(((rest.len() + 1) as i32, s.last()))
        }
    }
}

/// Index the routing layers, validating each.
///
/// The index is a running counter, not the routing level: layers whose routing level is 0 are
/// skipped and do not consume an index. The track-grid requirement applies only inside the routing
/// range `min..=max`. Returns the layers keyed by their index, starting at 1.
pub fn init_routing_layers(
    layers: &[RoutingLayer],
    min_routing_layer: i32,
    max_routing_layer: i32,
) -> (r: Result<Vec<(i32, RoutingLayer)>, LayerError>)
    requires
        layers@.len() < i32::MAX,
    ensures
        match r {
            Ok(out) => {
                &&& out@ == numbered_layers(layers@)
                &&& forall|i: int| 0 <= i < layers@.len() ==> !layer_rejected(
                    #[trigger] layers@[i], min_routing_layer as int, max_routing_layer as int)
            },
            Err(e) => exists|i: int| #![trigger layers@[i]] {
                &&& 0 <= i < layers@.len()
                &&& layer_rejected(layers@[i], min_routing_layer as int, max_routing_layer as int)
                &&& forall|j: int| 0 <= j < i ==> !layer_rejected(
                    #[trigger] layers@[j], min_routing_layer as int, max_routing_layer as int)
                &&& e == (if layers@[i].direction is None {
                    LayerError::NoDirection { layer: layers@[i].name }
                } else {
                    LayerError::NoTrackGrid { layer: layers@[i].name }
                })
            },
        },
{
    let mut out: Vec<(i32, RoutingLayer)> = Vec::new();
    let mut valid_layers: i32 = 1;
    let mut i: usize = 0;
    while i < layers.len()
        invariant
            i <= layers@.len() < i32::MAX,
            out@ == numbered_layers(layers@.take(i as int)),
            valid_layers == out@.len() + 1,
            out@.len() <= i,
            forall|j: int| 0 <= j < i ==> !layer_rejected(
                #[trigger] layers@[j], min_routing_layer as int, max_routing_layer as int),
        decreases layers@.len() - i,
    {
        let layer = &layers[i];
        proof {
            assert(layers@.take(i + 1).drop_last() =~= layers@.take(i as int));
            assert(layers@.take(i + 1).last() == layers@[i as int]);
        }
        if layer.routing_level != 0 {
            if layer.direction.is_none() {
                return Err(LayerError::NoDirection { layer: layer.name.clone() });
            }
            if !layer.has_track_grid && layer.routing_level >= min_routing_layer && layer.routing_level
                <= max_routing_layer {
                return Err(LayerError::NoTrackGrid { layer: layer.name.clone() });
            }
            out.push((valid_layers, layer.clone()));
            valid_layers += 1;
        }
        i += 1;
    }
    assert(layers@.take(i as int) =~= layers@);
    Ok(out)
}

/// The first layer of a routing level.
pub open spec fn layer_at_level(layers: Seq<RoutingLayer>, level: int) -> Option<RoutingLayer>
    decreases layers.len(),
{
    if layers.len() == 0 {
        None
    } else if layers[0].routing_level == level {
        Some(layers[0])
    } else {
        layer_at_level(layers.drop_first(), level)
    }
}

/// Where the first layer of a routing level stands.
pub fn find_level(layers: &[RoutingLayer], level: i32) -> (r: Option<usize>)
    ensures
        match r {
            Some(i) => i < layers@.len() && layer_at_level(layers@, level as int) == Some(layers@[i as int]),
            None => layer_at_level(layers@, level as int) is None,
        },
{
    let mut i: usize = 0;
    assert(layers@.skip(0) =~= layers@);
    while i < layers.len()
        invariant
            i <= layers@.len(),
            layer_at_level(layers@, level as int) == layer_at_level(layers@.skip(i as int), level as int),
        decreases layers@.len() - i,
    {
        proof {
            assert(layers@.skip(i as int)[0] == layers@[i as int]);
            assert(layers@.skip(i as int).drop_first() =~= layers@.skip(i + 1));
        }
        if layers[i].routing_level == level {
            return Some(i);
        }
        i += 1;
    }
    None
}

/// Whether the layers at two adjacent levels are on one side of the chip and prefer one direction.
pub open spec fn clash(layers: Seq<RoutingLayer>, l: int) -> bool {
    match (layer_at_level(layers, l), layer_at_level(layers, l + 1)) {
        (Some(a), Some(b)) => a.is_backside == b.is_backside && a.direction == b.direction && a.direction is Some,
        _ => false,
    }
}

/// Adjacent routing layers must prefer different directions.
///
/// The range is half-open: `l` is compared with `l + 1` for `l` in `min..max`. A backside layer
/// next to a frontside one is skipped. Layers are looked up by routing level, the first of a level
/// counting.
pub fn check_adjacent_layers_direction(
    layers: &[RoutingLayer],
    min_routing_layer: i32,
    max_routing_layer: i32,
) -> (r: Result<(), LayerError>)
    ensures
        match r {
            Ok(()) => forall|l: int| min_routing_layer <= l < max_routing_layer ==> !#[trigger] clash(layers@, l),
            Err(e) => exists|l: int| {
                &&& min_routing_layer <= l < max_routing_layer
                &&& #[trigger] clash(layers@, l)
                &&& forall|k: int| min_routing_layer <= k < l ==> !#[trigger] clash(layers@, k)
                &&& e == (LayerError::SameDirection {
                    a: layer_at_level(layers@, l)->0.name,
                    b: layer_at_level(layers@, l + 1)->0.name,
                    direction: layer_at_level(layers@, l)->0.direction->0,
                })
            },
        },
{
    let mut l: i32 = min_routing_layer;
    while l < max_routing_layer
        invariant
            min_routing_layer <= l,
            forall|k: int| min_routing_layer <= k < l ==> !#[trigger] clash(layers@, k),
        decreases max_routing_layer - l,
    {
        match (find_level(layers, l), find_level(layers, l + 1)) {
            (Some(i), Some(j)) => {
                let (a, b) = (&layers[i], &layers[j]);
                if a.is_backside == b.is_backside {
                    match (a.direction, b.direction) {
                        (Some(c), Some(d)) => {
                            if c == d {
                                assert(clash(layers@, l as int));
                                return Err(
                                    LayerError::SameDirection { a: a.name.clone(), b: b.name.clone(), direction: c },
                                );
                            }
                        },
                        _ => {},
                    }
                }
            },
            _ => {},
        }
        assert(!clash(layers@, l as int));
        l += 1;
    }
    Ok(())
}

/// The centre of cell `(x, y)` of the grid.
pub open spec fn cell_centre(g: CoreGrid, x: int, y: int) -> (int, int) {
    (
        x * g.tile_size + tdiv(g.tile_size as int, 2) + g.area.x_min,
        y * g.tile_size + tdiv(g.tile_size as int, 2) + g.area.y_min,
    )
}

/// Whether a cell's centre is computed within `i32`.
pub open spec fn cell_centre_fits(g: CoreGrid, x: int, y: int) -> bool {
    &&& fits(x * g.tile_size) && fits(y * g.tile_size)
    &&& fits(x * g.tile_size + tdiv(g.tile_size as int, 2)) && fits(y * g.tile_size + tdiv(g.tile_size as int, 2))
    &&& fits(cell_centre(g, x, y).0) && fits(cell_centre(g, x, y).1)
}

/// The rectangle of cell `(x, y)`: one tile around its centre, the upper corner moved to the die's
/// edge where less than a tile remains.
pub open spec fn cell_rect(g: CoreGrid, x: int, y: int) -> (int, int, int, int) {
    let (cx, cy) = cell_centre(g, x, y);
    let t = g.tile_size as int;
    let snap = |side: int, die: int| if tdiv(die - side, t) < 1 { die } else { side };
    (cx - t / 2, cy - t / 2, snap(cx + t / 2, g.area.x_max as int), snap(cy + t / 2, g.area.y_max as int))
}

/// Whether a cell's rectangle is computed within `i32`.
pub open spec fn cell_rect_fits(g: CoreGrid, x: int, y: int) -> bool {
    let (cx, cy) = cell_centre(g, x, y);
    let t = g.tile_size as int;
    &&& t > 0
    &&& cell_centre_fits(g, x, y)
    &&& fits(cx - t / 2) && fits(cy - t / 2) && fits(cx + t / 2) && fits(cy + t / 2)
    &&& fits(g.area.x_max - (cx + t / 2)) && fits(g.area.y_max - (cy + t / 2))
}

impl CoreGrid {
    /// The centre of grid cell `(x, y)`, by index.
    pub fn position_from_grid_point(&self, x: i32, y: i32) -> (r: (i32, i32))
        requires
            cell_centre_fits(*self, x as int, y as int),
        ensures
            (r.0 as int, r.1 as int) == cell_centre(*self, x as int, y as int),
    {
        (
            x * self.tile_size + self.tile_size / 2 + self.area.x_min,
            y * self.tile_size + self.tile_size / 2 + self.area.y_min,
        )
    }

    /// The rectangle grid cell `(x, y)` covers. Only the upper corner is moved to the die's edge, so
    /// every cell is one tile wide except those at the top and right, which take the remainder.
    pub fn gcell_rect(&self, x: i32, y: i32) -> (r: Rect)
        requires
            cell_rect_fits(*self, x as int, y as int),
        ensures
            (r.x_min as int, r.y_min as int, r.x_max as int, r.y_max as int) == cell_rect(*self, x as int, y as int),
    {
        let (cx, cy) = self.position_from_grid_point(x, y);
        let half: i32 = self.tile_size / 2;
        let (x_min, y_min) = (cx - half, cy - half);
        let mut x_max: i32 = cx + half;
        let mut y_max: i32 = cy + half;
        if (self.area.x_max - x_max) / self.tile_size < 1 {
            x_max = self.area.x_max;
        }
        if (self.area.y_max - y_max) / self.tile_size < 1 {
            y_max = self.area.y_max;
        }
        Rect::new(x_min, y_min, x_max, y_max)
    }
}

/// Whether a grid has as many cells of an even size as its area holds whole ones.
pub open spec fn is_tiled(g: CoreGrid) -> bool {
    let t = g.tile_size as int;
    &&& t > 0 && t % 2 == 0
    &&& g.x_grids == (g.area.x_max - g.area.x_min) / t && g.x_grids >= 1
    &&& g.y_grids == (g.area.y_max - g.area.y_min) / t && g.y_grids >= 1
}

/// The sides of the cells at one index along one axis: the first side of the area, so many tiles on, and a tile
/// further or, for the last, the far side of the area.
proof fn lemma_sides(min: int, max: int, t: int, n: int, i: int)
    requires
        t > 0,
        t % 2 == 0,
        n == (max - min) / t,
        0 <= i < n,
    ensures
        i * t + tdiv(t, 2) + min - t / 2 == min + i * t,
        i * t + tdiv(t, 2) + min + t / 2 == min + (i + 1) * t,
        min + (i + 1) * t <= max,
        i < n - 1 ==> tdiv(max - (min + (i + 1) * t), t) >= 1,
        i == n - 1 ==> tdiv(max - (min + (i + 1) * t), t) < 1,
{
    let rest = (max - min) % t;
    assert(max - min == n * t + rest && 0 <= rest < t) by (nonlinear_arith)
        requires
            t > 0,
            n == (max - min) / t,
            rest == (max - min) % t,
    ;
    assert((i + 1) * t == i * t + t) by (nonlinear_arith);
    assert(n * t - (i + 1) * t == (n - i - 1) * t) by (nonlinear_arith);
    let gap = max - (min + (i + 1) * t);
    assert(gap == (n - i - 1) * t + rest);
    if i < n - 1 {
        assert((n - i - 1) * t >= t) by (nonlinear_arith)
            requires
                n - i - 1 >= 1,
                t > 0,
        ;
        assert(gap / t >= 1) by (nonlinear_arith)
            requires
                gap >= t,
                t > 0,
        ;
    } else {
        assert((n - i - 1) * t == 0) by (nonlinear_arith)
            requires
                n - i - 1 == 0,
        ;
        assert(gap / t == 0) by (nonlinear_arith)
            requires
                0 <= gap < t,
        ;
    }
}

/// The cells tile the area: the first starts at its side, each but the last is one tile wide and ends where the
/// next starts, and the last ends at the far side with what remains; likewise upwards.
pub proof fn the_cells_tile_the_area(g: CoreGrid, x: int, y: int)
    requires
        is_tiled(g),
        0 <= x < g.x_grids,
        0 <= y < g.y_grids,
    ensures
        cell_rect(g, 0, y).0 == g.area.x_min,
        cell_rect(g, x, 0).1 == g.area.y_min,
        x < g.x_grids - 1 ==> cell_rect(g, x, y).2 - cell_rect(g, x, y).0 == g.tile_size && cell_rect(g, x, y).2 == cell_rect(g, x + 1, y).0,
        y < g.y_grids - 1 ==> cell_rect(g, x, y).3 - cell_rect(g, x, y).1 == g.tile_size && cell_rect(g, x, y).3 == cell_rect(g, x, y + 1).1,
        cell_rect(g, g.x_grids - 1, y).2 == g.area.x_max,
        cell_rect(g, x, g.y_grids - 1).3 == g.area.y_max,
        cell_rect(g, x, y).0 == g.area.x_min + x * g.tile_size,
        cell_rect(g, x, y).1 == g.area.y_min + y * g.tile_size,
        cell_rect(g, x, y).2 == (if x == g.x_grids - 1 { g.area.x_max as int } else { g.area.x_min + (x + 1) * g.tile_size }),
        cell_rect(g, x, y).3 == (if y == g.y_grids - 1 { g.area.y_max as int } else { g.area.y_min + (y + 1) * g.tile_size }),
{
    let t = g.tile_size as int;
    let (nx, ny) = (g.x_grids as int, g.y_grids as int);
    lemma_sides(g.area.x_min as int, g.area.x_max as int, t, nx, 0);
    lemma_sides(g.area.y_min as int, g.area.y_max as int, t, ny, 0);
    lemma_sides(g.area.x_min as int, g.area.x_max as int, t, nx, x);
    lemma_sides(g.area.y_min as int, g.area.y_max as int, t, ny, y);
    lemma_sides(g.area.x_min as int, g.area.x_max as int, t, nx, nx - 1);
    lemma_sides(g.area.y_min as int, g.area.y_max as int, t, ny, ny - 1);
    if x < nx - 1 {
        lemma_sides(g.area.x_min as int, g.area.x_max as int, t, nx, x + 1);
        assert((x + 1) * t == x * t + t) by (nonlinear_arith);
    }
    if y < ny - 1 {
        lemma_sides(g.area.y_min as int, g.area.y_max as int, t, ny, y + 1);
        assert((y + 1) * t == y * t + t) by (nonlinear_arith);
    }
}

/// Whether a point lies in a cell, the upper sides left out.
pub open spec fn in_cell(g: CoreGrid, x: int, y: int, px: int, py: int) -> bool {
    let r = cell_rect(g, x, y);
    r.0 <= px < r.2 && r.1 <= py < r.3
}

/// The index of the cell along one axis that holds a point.
pub open spec fn index_of(min: int, t: int, n: int, p: int) -> int {
    if (p - min) / t < n { (p - min) / t } else { n - 1 }
}

proof fn lemma_index(min: int, max: int, t: int, n: int, p: int, i: int)
    requires
        t > 0,
        n == (max - min) / t,
        n >= 1,
        min <= p < max,
        0 <= i < n,
    ensures
        0 <= index_of(min, t, n, p) < n,
        min + i * t <= p < (if i == n - 1 { max } else { min + (i + 1) * t }) <==> i == index_of(min, t, n, p),
{
    let k = (p - min) / t;
    let rest = (p - min) % t;
    assert(p - min == k * t + rest && 0 <= rest < t && k >= 0) by (nonlinear_arith)
        requires
            t > 0,
            p >= min,
            k == (p - min) / t,
            rest == (p - min) % t,
    ;
    assert((i + 1) * t == i * t + t) by (nonlinear_arith);
    if i < k {
        assert((i + 1) * t <= k * t) by (nonlinear_arith)
            requires
                i + 1 <= k,
                t > 0,
        ;
    }
    if i > k {
        assert(i * t >= k * t + t) by (nonlinear_arith)
            requires
                i >= k + 1,
                t > 0,
        ;
    }
}

/// Every point of the area lies in one cell and in no other.
pub proof fn every_point_lies_in_one_cell(g: CoreGrid, px: int, py: int)
    requires
        is_tiled(g),
        g.area.x_min <= px < g.area.x_max,
        g.area.y_min <= py < g.area.y_max,
    ensures
        ({
            let at = (index_of(g.area.x_min as int, g.tile_size as int, g.x_grids as int, px), index_of(g.area.y_min as int, g.tile_size as int, g.y_grids as int, py));
            &&& 0 <= at.0 < g.x_grids && 0 <= at.1 < g.y_grids
            &&& forall|x: int, y: int| 0 <= x < g.x_grids && 0 <= y < g.y_grids ==> (#[trigger] in_cell(g, x, y, px, py) <==> (x, y) == at)
        }),
{
    let (t, nx, ny) = (g.tile_size as int, g.x_grids as int, g.y_grids as int);
    lemma_index(g.area.x_min as int, g.area.x_max as int, t, nx, px, 0);
    lemma_index(g.area.y_min as int, g.area.y_max as int, t, ny, py, 0);
    assert forall|x: int, y: int| 0 <= x < nx && 0 <= y < ny implies (#[trigger] in_cell(g, x, y, px, py) <==> (x, y) == (
        index_of(g.area.x_min as int, t, nx, px),
        index_of(g.area.y_min as int, t, ny, py),
    )) by {
        the_cells_tile_the_area(g, x, y);
        lemma_index(g.area.x_min as int, g.area.x_max as int, t, nx, px, x);
        lemma_index(g.area.y_min as int, g.area.y_max as int, t, ny, py, y);
    }
}

/// The first and the last of the tracks at `init`, `init + pitch`, .. that lie in `[min, max)`; the
/// last before the first where there is none.
pub open spec fn tracks_between(min: int, max: int, init: int, pitch: int, count: int) -> (int, int) {
    let first = if min <= init { 0 } else { (min - init + pitch - 1) / pitch };
    let last = if max <= init { -1 } else { (max - init - 1) / pitch };
    (first, if last < count - 1 { last } else { count - 1 })
}

/// How many of `count` tracks lie in `[min, max)`.
pub open spec fn tracks_in(min: int, max: int, init: int, pitch: int, count: int) -> int {
    let (first, last) = tracks_between(min, max, init, pitch, count);
    if first > last { 0 } else { last - first + 1 }
}

/// The bounds of a cell across the tracks of a direction.
pub open spec fn cell_bounds(g: CoreGrid, x: int, y: int, horizontal: bool) -> (int, int) {
    let r = cell_rect(g, x, y);
    if horizontal { (r.1, r.3) } else { (r.0, r.2) }
}

/// Whether a cell's capacity is computed within `i32`.
pub open spec fn gcell_capacity_fits(
    g: CoreGrid, x: int, y: int, init: int, pitch: int, count: int, horizontal: bool,
) -> bool {
    let (min, max) = cell_bounds(g, x, y, horizontal);
    &&& cell_rect_fits(g, x, y)
    &&& min <= init && max < init || pitch > 0
    &&& min > init ==> fits(min - init + pitch)
    &&& max >= init ==> fits(max - init)
    &&& count > i32::MIN
    &&& fits(tracks_in(min, max, init, pitch, count))
    &&& fits(tracks_between(min, max, init, pitch, count).1 - tracks_between(min, max, init, pitch, count).0)
}

/// How many routing tracks fall inside one grid cell: the capacity of the cell's edge on one layer.
///
/// The first track is rounded up and the last one down, the upper bound being exclusive: a track
/// exactly on it belongs to the next cell. A cell whose range is empty has no capacity.
pub fn compute_gcell_capacity(
    grid: &CoreGrid,
    x: i32,
    y: i32,
    track_init: i32,
    track_pitch: i32,
    track_count: i32,
    horizontal: bool,
) -> (r: i32)
    requires
        gcell_capacity_fits(*grid, x as int, y as int, track_init as int, track_pitch as int, track_count as int, horizontal),
    ensures
        r == tracks_in(
            cell_bounds(*grid, x as int, y as int, horizontal).0,
            cell_bounds(*grid, x as int, y as int, horizontal).1,
            track_init as int,
            track_pitch as int,
            track_count as int,
        ),
        r >= 0,
{
    let c = grid.gcell_rect(x, y);
    let (min_bound, max_bound) = if horizontal { (c.y_min, c.y_max) } else { (c.x_min, c.x_max) };
    let first_track: i32 = if min_bound <= track_init {
        0
    } else {
        (min_bound - track_init + track_pitch - 1) / track_pitch
    };
    let mut last_track: i32 = if max_bound <= track_init {
        -1
    } else {
        (max_bound - track_init - 1) / track_pitch
    };
    last_track = last_track.min(track_count - 1);
    if first_track > last_track {
        return 0;
    }
    last_track - first_track + 1
}

/// A cell's capacity counts the tracks inside it: track `k` of `count` is among those from the first
/// to the last exactly when it lies in `[min, max)`.
pub proof fn capacity_counts_the_tracks_inside(min: int, max: int, init: int, pitch: int, count: int, k: int)
    requires
        pitch > 0,
        0 <= k < count,
    ensures
        ({
            let (first, last) = tracks_between(min, max, init, pitch, count);
            (first <= k <= last) <==> (min <= init + k * pitch < max)
        }),
{
    let first = if min <= init { 0 } else { (min - init + pitch - 1) / pitch };
    let last = if max <= init { -1 } else { (max - init - 1) / pitch };
    assert((first <= k) == (min <= init + k * pitch)) by {
        if min <= init {
            assert(0 <= k * pitch) by (nonlinear_arith)
                requires
                    k >= 0,
                    pitch > 0,
            ;
        } else {
            let n = min - init + pitch - 1;
            assert((n / pitch <= k) == (n < (k + 1) * pitch)) by (nonlinear_arith)
                requires
                    pitch > 0,
            ;
            assert((k + 1) * pitch == k * pitch + pitch) by (nonlinear_arith);
        }
    }
    assert((k <= last) == (init + k * pitch < max)) by {
        if max <= init {
            assert(0 <= k * pitch) by (nonlinear_arith)
                requires
                    k >= 0,
                    pitch > 0,
            ;
        } else {
            let n = max - init - 1;
            assert((k <= n / pitch) == (k * pitch <= n)) by (nonlinear_arith)
                requires
                    pitch > 0,
            ;
        }
    }
}

/// The edges of one direction in the order their capacities are set: row by row for horizontal
/// edges, column by column for vertical ones, each from its first cell to its second.
pub open spec fn edge_order(x_grids: int, y_grids: int, horizontal: bool) -> Seq<((int, int), (int, int))> {
    let (inner, outer) = if horizontal { (x_grids - 1, y_grids) } else { (y_grids - 1, x_grids) };
    let n = if inner <= 0 || outer <= 0 { 0 } else { outer * inner };
    Seq::new(
        n as nat,
        |i: int|
            if horizontal {
                ((i % inner, i / inner), (i % inner + 1, i / inner))
            } else {
                ((i / inner, i % inner), (i / inner, i % inner + 1))
            },
    )
}

/// A list of machine-integer cell pairs as integers.
pub open spec fn int_edges(v: Seq<((i32, i32), (i32, i32))>) -> Seq<((int, int), (int, int))> {
    v.map_values(
        |e: ((i32, i32), (i32, i32))| ((e.0.0 as int, e.0.1 as int), (e.1.0 as int, e.1.1 as int)),
    )
}

/// The number of edges of one direction.
pub open spec fn edge_count(x_grids: int, y_grids: int, horizontal: bool) -> int {
    edge_order(x_grids, y_grids, horizontal).len() as int
}

proof fn lemma_row(o: int, i: int, inner: int)
    requires
        0 <= i < inner,
        o >= 0,
    ensures
        (o * inner + i) / inner == o,
        (o * inner + i) % inner == i,
{
    assert((o * inner + i) / inner == o && (o * inner + i) % inner == i) by (nonlinear_arith)
        requires
            0 <= i < inner,
            o >= 0,
    ;
}

/// Where an edge stands in [`edge_order`].
pub proof fn lemma_edge_order(xg: int, yg: int, horizontal: bool, k: int)
    requires
        0 <= k < edge_count(xg, yg, horizontal),
    ensures
        ({
            let ((x, y), _) = edge_order(xg, yg, horizontal)[k];
            if horizontal {
                in_grid2(x, y, xg - 1, yg) && k == at2(x, y, xg - 1)
            } else {
                in_grid2(x, y, xg, yg - 1) && k == at2(y, x, yg - 1)
            }
        }),
{
    let (inner, outer) = if horizontal { (xg - 1, yg) } else { (yg - 1, xg) };
    assert(0 <= k % inner < inner && 0 <= k / inner < outer && k == (k / inner) * inner + k % inner)
        by (nonlinear_arith)
        requires
            inner > 0,
            0 <= k < outer * inner,
    ;
}

/// The edges in the order their capacities are set, each from its first cell to its second.
pub fn capacity_edge_order(x_grids: i32, y_grids: i32, horizontal: bool) -> (out: Vec<((i32, i32), (i32, i32))>)
    requires
        edge_count(x_grids as int, y_grids as int, horizontal) <= usize::MAX,
    ensures
        int_edges(out@) == edge_order(x_grids as int, y_grids as int, horizontal),
{
    let mut out: Vec<((i32, i32), (i32, i32))> = Vec::new();
    let ghost want = edge_order(x_grids as int, y_grids as int, horizontal);
    let (inner, outer) = if horizontal { (x_grids, y_grids) } else { (y_grids, x_grids) };
    let ghost w = inner - 1;
    if inner <= 1 || outer <= 0 {
        assert(int_edges(out@) =~= want);
        return out;
    }
    let mut o: i32 = 0;
    while o < outer
        invariant
            0 <= o <= outer,
            inner > 1,
            w == inner - 1,
            (inner, outer) == (if horizontal { (x_grids, y_grids) } else { (y_grids, x_grids) }),
            want == edge_order(x_grids as int, y_grids as int, horizontal),
            out@.len() == o * w,
            int_edges(out@) == want.take(o * w),
            want.len() == outer * w,
        decreases outer - o,
    {
        let mut i: i32 = 0;
        proof {
            assert(0 <= o * w <= outer * w) by (nonlinear_arith)
                requires
                    0 <= o <= outer,
                    w >= 0,
            ;
        }
        while i < inner - 1
            invariant
                0 <= i <= w,
                0 <= o < outer,
                w == inner - 1,
                inner > 1,
                (inner, outer) == (if horizontal { (x_grids, y_grids) } else { (y_grids, x_grids) }),
                want == edge_order(x_grids as int, y_grids as int, horizontal),
                out@.len() == o * w + i,
                int_edges(out@) == want.take(o * w + i),
                want.len() == outer * w,
                0 <= o * w,
            decreases w - i,
        {
            proof {
                lemma_row(o as int, i as int, w);
                lemma_at2(i as int, o as int, w, outer as int);
            }
            if horizontal {
                out.push(((i, o), (i + 1, o)));
            } else {
                out.push(((o, i), (o, i + 1)));
            }
            i += 1;
            assert(int_edges(out@) =~= want.take(o * w + i));
        }
        assert((o + 1) * w == o * w + w) by (nonlinear_arith);
        o += 1;
    }
    assert(want.take(o * w) =~= want);
    out
}

/// The capacity used when congestion is ignored: a tenth of the 16-bit range, which leaves room for
/// the additions that follow.
pub const INFINITE_CAPACITY: i32 = 3276;

/// The grid as the router holds it.
#[derive(Debug)]
pub struct FastRouteGrid {
    pub x_grid: i32,
    pub y_grid: i32,
    pub num_layers: i32,
    /// The larger grid dimension, but never below 1000.
    pub x_range: i32,
    pub y_range: i32,
    pub regular_x: bool,
    pub regular_y: bool,
    /// The grid's lower-left corner: the die's.
    pub x_corner: i32,
    pub y_corner: i32,
    pub tile_size: i32,
    /// The die's upper-right corner.
    pub x_grid_max: i32,
    pub y_grid_max: i32,
    /// Per router layer `l - 1`, the direction of routing level `l`.
    pub directions: Vec<Option<Direction>>,
}

/// Copies the grid into the router's own fields, and each routing level's direction into router
/// layer `level - 1`.
pub fn mirror_grid_to_fast_route(grid: &CoreGrid, directions: &[Option<Direction>]) -> (r: FastRouteGrid)
    requires
        grid.num_layers >= 0,
    ensures
        r.x_grid == grid.x_grids,
        r.y_grid == grid.y_grids,
        r.num_layers == grid.num_layers,
        r.x_range == r.y_range,
        r.x_range >= 1000 && r.x_range >= grid.x_grids && r.x_range >= grid.y_grids,
        r.x_range == 1000 || r.x_range == grid.x_grids || r.x_range == grid.y_grids,
        r.regular_x == grid.perfect_regular_x,
        r.regular_y == grid.perfect_regular_y,
        r.x_corner == grid.area.x_min,
        r.y_corner == grid.area.y_min,
        r.tile_size == grid.tile_size,
        r.x_grid_max == grid.area.x_max,
        r.y_grid_max == grid.area.y_max,
        r.directions@ == Seq::new(
            grid.num_layers as nat,
            |l: int| if l < directions@.len() { directions@[l] } else { None },
        ),
{
    let range: i32 = grid.x_grids.max(grid.y_grids).max(1000);
    let n: usize = grid.num_layers as usize;
    let mut dirs: Vec<Option<Direction>> = Vec::new();
    let mut l: usize = 0;
    while l < n
        invariant
            l <= n,
            dirs@ == Seq::new(l as nat, |j: int| if j < directions@.len() { directions@[j] } else { None }),
        decreases n - l,
    {
        dirs.push(if l < directions.len() { directions[l] } else { None });
        l += 1;
        assert(dirs@ =~= Seq::new(l as nat, |j: int| if j < directions@.len() { directions@[j] } else { None }));
    }
    FastRouteGrid {
        x_grid: grid.x_grids,
        y_grid: grid.y_grids,
        num_layers: grid.num_layers,
        x_range: range,
        y_range: range,
        regular_x: grid.perfect_regular_x,
        regular_y: grid.perfect_regular_y,
        x_corner: grid.area.x_min,
        y_corner: grid.area.y_min,
        tile_size: grid.tile_size,
        x_grid_max: grid.area.x_max,
        y_grid_max: grid.area.y_max,
        directions: dirs,
    }
}

/// One routing level as [`set_capacities`] reads it.
#[derive(Debug, Clone, Copy, PartialEq, Eq, Structural)]
pub struct CapacityLayer {
    pub direction: Option<Direction>,
    /// The tracks of the level, where there are any.
    pub tracks: Option<RoutingTracks>,
}

/// The router's capacities.
#[derive(Debug)]
pub struct EdgeCapacities {
    pub x_grid: i32,
    pub y_grid: i32,
    pub num_layers: i32,
    /// The horizontal 3D capacities, flattened `(l * y_grid + y) * x_grid + x`.
    pub h3: Vec<u16>,
    /// The vertical 3D capacities, flattened the same way.
    pub v3: Vec<u16>,
    /// The 2D horizontal capacities, `[y][x]` with `x < x_grid - 1`, summed over the layers.
    pub h2: Vec<u16>,
    /// The 2D vertical capacities, `[y][x]` with `y < y_grid - 1`.
    pub v2: Vec<u16>,
    /// Per router layer, the smallest edge capacity.
    pub h_capacity_3d: Vec<i16>,
    pub v_capacity_3d: Vec<i16>,
    /// Their sums.
    pub h_capacity: i32,
    pub v_capacity: i32,
}

/// What [`set_capacities`] is given: the grid, the layers, the routing range and whether congestion
/// is ignored.
pub struct CapacityInput {
    pub core: CoreGrid,
    pub layers: Seq<CapacityLayer>,
    pub min: int,
    pub max: int,
    pub infinite: bool,
}

/// Whether routing level `layer` is horizontal; every other level is treated as vertical.
pub open spec fn level_horizontal(c: CapacityInput, layer: int) -> bool {
    c.layers[layer - 1].direction == Some(Direction::Horizontal)
}

/// The tracks of a routing level.
pub open spec fn level_tracks(c: CapacityInput, layer: int) -> RoutingTracks {
    match c.layers[layer - 1].tracks {
        Some(t) => t,
        None => RoutingTracks { layer_index: 0, track_pitch: 0, location: 0, num_tracks: 0 },
    }
}

/// The capacity of one edge on one level, in the level's own direction.
pub open spec fn edge_cap(c: CapacityInput, layer: int, x: int, y: int) -> int {
    let t = level_tracks(c, layer);
    let (min, max) = cell_bounds(c.core, x, y, level_horizontal(c, layer));
    if c.infinite {
        INFINITE_CAPACITY as int
    } else if c.min <= layer <= c.max {
        tracks_in(min, max, t.location as int, t.track_pitch as int, t.num_tracks as int)
    } else {
        0
    }
}

/// The 16-bit sum of an edge's capacities over the first `n` levels of a direction.
pub open spec fn cap_sum(c: CapacityInput, horizontal: bool, n: int, x: int, y: int) -> u16
    decreases n,
{
    if n <= 0 {
        0
    } else if level_horizontal(c, n) == horizontal {
        cap_sum(c, horizontal, n - 1, x, y).wrapping_add(edge_cap(c, n, x, y) as u16)
    } else {
        cap_sum(c, horizontal, n - 1, x, y)
    }
}

/// The smallest capacity of the first `k` edges of a level, `i32::MAX` for none.
pub open spec fn least_cap(c: CapacityInput, layer: int, order: Seq<((int, int), (int, int))>, k: int) -> int
    decreases k,
{
    if k <= 0 {
        i32::MAX as int
    } else {
        let before = least_cap(c, layer, order, k - 1);
        let cap = edge_cap(c, layer, order[k - 1].0.0, order[k - 1].0.1);
        if cap < before { cap } else { before }
    }
}

/// A level's smallest edge capacity, narrowed to 16 bits: 0 for a level without edges.
pub open spec fn level_cap(c: CapacityInput, xg: int, yg: int, layer: int) -> i16 {
    let order = edge_order(xg, yg, level_horizontal(c, layer));
    let m = least_cap(c, layer, order, order.len() as int);
    (if m == i32::MAX { 0 } else { m }) as i16
}

/// The sum of the smallest capacities of the first `n` levels of a direction.
pub open spec fn level_cap_sum(c: CapacityInput, xg: int, yg: int, horizontal: bool, n: int) -> int
    decreases n,
{
    if n <= 0 {
        0
    } else {
        level_cap_sum(c, xg, yg, horizontal, n - 1) + (if level_horizontal(c, n) == horizontal {
            level_cap(c, xg, yg, n) as int
        } else {
            0
        })
    }
}

/// The 3D capacities after the first `n` levels, and the first `k` edges of the next one.
pub open spec fn caps3_upto(c: CapacityInput, v: Seq<u16>, horizontal: bool, nl: int, xg: int, yg: int, n: int, k: int) -> bool {
    &&& v.len() == nl * yg * xg
    &&& forall|l: int, x: int, y: int|
        in_grid3(l, x, y, nl, xg, yg) ==> v[#[trigger] at3(l, x, y, xg, yg)] == (if (if horizontal {
            x < xg - 1
        } else {
            y < yg - 1
        }) && l < c.layers.len() && level_horizontal(c, l + 1) == horizontal && (l < n || (l == n && edge_place(
            horizontal, x, y, xg, yg) < k)) {
            edge_cap(c, l + 1, x, y) as u16
        } else {
            0u16
        })
}

/// The place of an edge in [`edge_order`].
pub open spec fn edge_place(horizontal: bool, x: int, y: int, xg: int, yg: int) -> int {
    if horizontal { at2(x, y, xg - 1) } else { at2(y, x, yg - 1) }
}

/// The 2D capacities after the first `n` levels, and the first `k` edges of the next one.
pub open spec fn caps2_upto(c: CapacityInput, v: Seq<u16>, horizontal: bool, xg: int, yg: int, n: int, k: int) -> bool {
    if horizontal {
        caps2_grid(c, v, horizontal, xg, yg, xg - 1, yg, n, k)
    } else {
        caps2_grid(c, v, horizontal, xg, yg, xg, yg - 1, n, k)
    }
}

/// The 2D capacities of a direction as a grid of `w` columns and `h` rows.
pub open spec fn caps2_grid(
    c: CapacityInput, v: Seq<u16>, horizontal: bool, xg: int, yg: int, w: int, h: int, n: int, k: int,
) -> bool {
    &&& v.len() == (if w <= 0 || h <= 0 { 0 } else { h * w })
    &&& forall|x: int, y: int|
        in_grid2(x, y, w, h) ==> v[#[trigger] at2(x, y, w)] == (if level_horizontal(c, n + 1) == horizontal
            && edge_place(horizontal, x, y, xg, yg) < k {
            cap_sum(c, horizontal, n + 1, x, y)
        } else {
            cap_sum(c, horizontal, n, x, y)
        })
}

/// Whether an edge of a level can be given its capacity within `i32`.
pub open spec fn level_fits(c: CapacityInput, xg: int, yg: int, layer: int) -> bool {
    let t = level_tracks(c, layer);
    let h = level_horizontal(c, layer);
    c.infinite || !(c.min <= layer <= c.max) || forall|x: int, y: int|
        (if h { in_grid2(x, y, xg - 1, yg) } else { in_grid2(x, y, xg, yg - 1) }) ==> #[trigger] gcell_capacity_fits(
            c.core, x, y, t.location as int, t.track_pitch as int, t.num_tracks as int, h)
}

impl EdgeCapacities {
    /// The shape of the capacity grids.
    pub open spec fn wf(&self) -> bool {
        &&& self.x_grid >= 0 && self.y_grid >= 0 && self.num_layers >= 0
        &&& self.num_layers * self.y_grid * self.x_grid <= i32::MAX
        &&& self.h3@.len() == self.num_layers * self.y_grid * self.x_grid
        &&& self.v3@.len() == self.num_layers * self.y_grid * self.x_grid
    }

    fn at3(&self, l: i32, x: i32, y: i32) -> (i: usize)
        requires
            self.wf(),
            in_grid3(l as int, x as int, y as int, self.num_layers as int, self.x_grid as int, self.y_grid as int),
        ensures
            i == at3(l as int, x as int, y as int, self.x_grid as int, self.y_grid as int),
            i < self.h3@.len(),
            i < self.v3@.len(),
    {
        proof {
            lemma_at3(l as int, x as int, y as int, self.num_layers as int, self.x_grid as int, self.y_grid as int);
        }
        ((l * self.y_grid + y) * self.x_grid + x) as usize
    }
}

/// The capacities written so far: the first `n` levels, and the first `k` edges of the next one.
pub open spec fn capacities_upto(i: CapacityInput, c: EdgeCapacities, n: int, k: int) -> bool {
    let (nl, xg, yg) = (c.num_layers as int, c.x_grid as int, c.y_grid as int);
    &&& caps3_upto(i, c.h3@, true, nl, xg, yg, n, k)
    &&& caps3_upto(i, c.v3@, false, nl, xg, yg, n, k)
    &&& caps2_upto(i, c.h2@, true, xg, yg, n, k)
    &&& caps2_upto(i, c.v2@, false, xg, yg, n, k)
}

/// The levels' smallest capacities after the first `n` levels.
pub open spec fn level_caps_upto(i: CapacityInput, c: EdgeCapacities, n: int) -> bool {
    let (xg, yg) = (c.x_grid as int, c.y_grid as int);
    &&& c.h_capacity_3d@ == Seq::new(
        c.num_layers as nat,
        |l: int| if l < n && level_horizontal(i, l + 1) { level_cap(i, xg, yg, l + 1) } else { 0i16 },
    )
    &&& c.v_capacity_3d@ == Seq::new(
        c.num_layers as nat,
        |l: int| if l < n && !level_horizontal(i, l + 1) { level_cap(i, xg, yg, l + 1) } else { 0i16 },
    )
    &&& c.h_capacity == level_cap_sum(i, xg, yg, true, n)
    &&& c.v_capacity == level_cap_sum(i, xg, yg, false, n)
}

/// Whether the inputs of [`set_capacities`] fit together.
pub open spec fn capacities_fit(i: CapacityInput, nl: int, xg: int, yg: int) -> bool {
    &&& 0 <= nl && 0 <= xg && 0 <= yg
    &&& nl * yg * xg <= i32::MAX
    &&& yg * xg <= i32::MAX
    &&& 0 <= i.core.num_layers <= nl
    &&& i.core.num_layers <= i.layers.len()
    &&& forall|l: int| 1 <= l <= i.core.num_layers ==> #[trigger] level_fits(i, xg, yg, l)
    &&& forall|l: int|
        0 <= l <= i.core.num_layers ==> fits(#[trigger] level_cap_sum(i, xg, yg, true, l)) && fits(
            level_cap_sum(i, xg, yg, false, l),
        )
}

/// Writes one edge's capacity on one level.
fn set_edge(c: &mut EdgeCapacities, horizontal: bool, layer: i32, x: i32, y: i32, cap: i32, Ghost(i): Ghost<CapacityInput>, Ghost(k): Ghost<int>)
    requires
        old(c).wf(),
        old(c).y_grid * old(c).x_grid <= i32::MAX,
        1 <= layer <= old(c).num_layers,
        layer <= i.layers.len(),
        capacities_upto(i, *old(c), layer - 1, k),
        horizontal == level_horizontal(i, layer as int),
        0 <= k < edge_count(old(c).x_grid as int, old(c).y_grid as int, horizontal),
        edge_order(old(c).x_grid as int, old(c).y_grid as int, horizontal)[k].0 == (x as int, y as int),
        cap == edge_cap(i, layer as int, x as int, y as int),
    ensures
        final(c).wf(),
        capacities_upto(i, *final(c), layer - 1, k + 1),
        final(c).x_grid == old(c).x_grid,
        final(c).y_grid == old(c).y_grid,
        final(c).num_layers == old(c).num_layers,
        final(c).h_capacity_3d == old(c).h_capacity_3d,
        final(c).v_capacity_3d == old(c).v_capacity_3d,
        final(c).h_capacity == old(c).h_capacity,
        final(c).v_capacity == old(c).v_capacity,
{
    let ghost (nl, xg, yg) = (c.num_layers as int, c.x_grid as int, c.y_grid as int);
    let ghost (w, h) = if horizontal { (xg - 1, yg) } else { (xg, yg - 1) };
    let ghost l = layer - 1;
    proof {
        lemma_edge_order(xg, yg, horizontal, k);
        lemma_at2(x as int, y as int, w, h);
        assert(h * w <= yg * xg) by (nonlinear_arith)
            requires
                0 <= h <= yg,
                0 <= w <= xg,
        ;
    }
    let i3: usize = c.at3(layer - 1, x, y);
    let i2: usize = if horizontal { (y * (c.x_grid - 1) + x) as usize } else { (y * c.x_grid + x) as usize };
    let ghost c0 = *c;
    let cap16: u16 = #[verifier::truncate] (cap as u16);
    if horizontal {
        c.h2[i2] = c.h2[i2].wrapping_add(cap16);
        c.h3[i3] = cap16;
    } else {
        c.v2[i2] = c.v2[i2].wrapping_add(cap16);
        c.v3[i3] = cap16;
    }
    proof {
        let (v0, v1) = if horizontal { (c0.h3@, c.h3@) } else { (c0.v3@, c.v3@) };
        assert forall|a: int, b: int, d: int| in_grid3(a, b, d, nl, xg, yg) && (a, b, d) != (l, x as int, y as int)
            implies v1[#[trigger] at3(a, b, d, xg, yg)] == v0[at3(a, b, d, xg, yg)] by {
            lemma_at3(a, b, d, nl, xg, yg);
            if at3(a, b, d, xg, yg) == i3 {
                crate::grids::lemma_at3_injective(a, b, d, l, x as int, y as int, nl, xg, yg);
            }
        }
        assert forall|b: int, d: int| in_grid2(b, d, w, h) && edge_place(horizontal, b, d, xg, yg) == k implies (b, d)
            == (x as int, y as int) by {
            if horizontal {
                crate::grids::lemma_at2_injective(b, d, x as int, y as int, w, h);
            } else {
                crate::grids::lemma_at2_injective(d, b, y as int, x as int, yg - 1, xg);
            }
        }
        assert forall|a: int, b: int, d: int| in_grid3(a, b, d, nl, xg, yg) implies v1[#[trigger] at3(a, b, d, xg, yg)]
            == (if (if horizontal {
            b < xg - 1
        } else {
            d < yg - 1
        }) && a < i.layers.len() && level_horizontal(i, a + 1) == horizontal && (a < l || (a == l && edge_place(
            horizontal, b, d, xg, yg) < k + 1)) {
            edge_cap(i, a + 1, b, d) as u16
        } else {
            0u16
        }) by {
            if a == l && in_grid2(b, d, w, h) && edge_place(horizontal, b, d, xg, yg) == k {
                assert((b, d) == (x as int, y as int));
            }
        }
        let (u0, u1) = if horizontal { (c0.h2@, c.h2@) } else { (c0.v2@, c.v2@) };
        assert forall|b: int, d: int| in_grid2(b, d, w, h) implies u1[#[trigger] at2(b, d, w)] == (if edge_place(
            horizontal, b, d, xg, yg) < k + 1 {
            cap_sum(i, horizontal, l + 1, b, d)
        } else {
            cap_sum(i, horizontal, l, b, d)
        }) by {
            lemma_at2(b, d, w, h);
            if at2(b, d, w) == i2 {
                crate::grids::lemma_at2_injective(b, d, x as int, y as int, w, h);
            } else {
                assert((b, d) != (x as int, y as int));
            }
        }
        assert(caps3_upto(i, c.h3@, true, nl, xg, yg, l, k + 1));
        assert(caps3_upto(i, c.v3@, false, nl, xg, yg, l, k + 1));
        assert(caps2_upto(i, c.h2@, true, xg, yg, l, k + 1));
        assert(caps2_upto(i, c.v2@, false, xg, yg, l, k + 1));
    }
}

proof fn lemma_level_done(i: CapacityInput, c: EdgeCapacities, n: int)
    requires
        c.wf(),
        0 <= n < c.num_layers,
        n < i.layers.len(),
        capacities_upto(i, c, n, edge_count(c.x_grid as int, c.y_grid as int, level_horizontal(i, n + 1))),
    ensures
        capacities_upto(i, c, n + 1, 0),
{
    let (nl, xg, yg) = (c.num_layers as int, c.x_grid as int, c.y_grid as int);
    let hor = level_horizontal(i, n + 1);
    let k = edge_count(xg, yg, hor);
    assert forall|x: int, y: int| (if hor { in_grid2(x, y, xg - 1, yg) } else { in_grid2(x, y, xg, yg - 1) }) implies 0
        <= #[trigger] edge_place(hor, x, y, xg, yg) < k by {
        if hor {
            lemma_at2(x, y, xg - 1, yg);
        } else {
            lemma_at2(y, x, yg - 1, xg);
        }
    }
    assert forall|x: int, y: int| in_grid2(x, y, xg - 1, yg) implies 0 <= #[trigger] edge_place(true, x, y, xg, yg) by {
        lemma_at2(x, y, xg - 1, yg);
    }
    assert forall|x: int, y: int| in_grid2(x, y, xg, yg - 1) implies 0 <= #[trigger] edge_place(false, x, y, xg, yg) by {
        lemma_at2(y, x, yg - 1, xg);
    }
    assert(caps3_upto(i, c.h3@, true, nl, xg, yg, n + 1, 0));
    assert(caps3_upto(i, c.v3@, false, nl, xg, yg, n + 1, 0));
    assert(caps2_upto(i, c.h2@, true, xg, yg, n + 1, 0));
    assert(caps2_upto(i, c.v2@, false, xg, yg, n + 1, 0));
}

/// Every edge's track capacity per layer, the 2D sums and each layer's minimum.
///
/// A layer whose direction is not horizontal is treated as vertical. Outside `min..=max` a layer's
/// edges get 0; with `infinite_capacity` every edge gets [`INFINITE_CAPACITY`], inside the range or
/// not. A layer's minimum is 0 if the layer has no edge.
pub fn set_capacities(
    fr: &FastRouteGrid,
    core: &CoreGrid,
    layers: &[CapacityLayer],
    min_routing_layer: i32,
    max_routing_layer: i32,
    infinite_capacity: bool,
) -> (c: EdgeCapacities)
    requires
        capacities_fit(
            (CapacityInput {
                core: *core, layers: layers@, min: min_routing_layer as int, max: max_routing_layer as int,
                infinite: infinite_capacity,
            }),
            fr.num_layers as int, fr.x_grid as int, fr.y_grid as int,
        ),
    ensures
        c.wf(),
        (c.x_grid, c.y_grid, c.num_layers) == (fr.x_grid, fr.y_grid, fr.num_layers),
        capacities_upto(
            (CapacityInput {
                core: *core, layers: layers@, min: min_routing_layer as int, max: max_routing_layer as int,
                infinite: infinite_capacity,
            }),
            c, core.num_layers as int, 0,
        ),
        level_caps_upto(
            (CapacityInput {
                core: *core, layers: layers@, min: min_routing_layer as int, max: max_routing_layer as int,
                infinite: infinite_capacity,
            }),
            c, core.num_layers as int,
        ),
{
    let (xg, yg, nl) = (fr.x_grid, fr.y_grid, fr.num_layers);
    let ghost inp = CapacityInput {
        core: *core, layers: layers@, min: min_routing_layer as int, max: max_routing_layer as int,
        infinite: infinite_capacity,
    };
    proof {
        assert(0 <= nl * yg <= nl * yg * xg || xg == 0) by (nonlinear_arith)
            requires
                0 <= nl,
                0 <= yg,
                0 <= xg,
        ;
        assert(0 <= nl * yg) by (nonlinear_arith)
            requires
                0 <= nl,
                0 <= yg,
        ;
        assert(0 <= nl * yg * xg) by (nonlinear_arith)
            requires
                0 <= nl * yg,
                0 <= xg,
        ;
        assert(0 <= yg * xg) by (nonlinear_arith)
            requires
                0 <= yg,
                0 <= xg,
        ;
        assert(xg >= 1 ==> 0 <= (xg - 1) * yg <= yg * xg) by (nonlinear_arith)
            requires
                0 <= yg,
        ;
        assert(yg >= 1 ==> 0 <= xg * (yg - 1) <= yg * xg) by (nonlinear_arith)
            requires
                0 <= xg,
        ;
        assert((xg - 1) * yg == yg * (xg - 1)) by (nonlinear_arith);
        assert(xg * (yg - 1) == (yg - 1) * xg) by (nonlinear_arith);
        assert(yg == 0 ==> (xg - 1) * yg == 0) by (nonlinear_arith);
        assert(xg == 0 ==> xg * (yg - 1) == 0) by (nonlinear_arith);
    }
    let cells: usize = if xg == 0 { 0 } else { (nl * yg * xg) as usize };
    let hw: usize = if xg <= 1 { 0 } else { ((xg - 1) * yg) as usize };
    let vh: usize = if yg <= 1 { 0 } else { (xg * (yg - 1)) as usize };
    let mut c = EdgeCapacities {
        x_grid: xg,
        y_grid: yg,
        num_layers: nl,
        h3: filled(0u16, cells),
        v3: filled(0u16, cells),
        h2: filled(0u16, hw),
        v2: filled(0u16, vh),
        h_capacity_3d: filled(0i16, nl as usize),
        v_capacity_3d: filled(0i16, nl as usize),
        h_capacity: 0,
        v_capacity: 0,
    };
    proof {
        assert(xg == 0 ==> nl * yg * xg == 0) by (nonlinear_arith);
        let (n2, x2, y2) = (nl as int, xg as int, yg as int);
        assert forall|x: int, y: int| in_grid2(x, y, x2 - 1, y2) implies 0 <= #[trigger] at2(x, y, x2 - 1) < hw by {
            lemma_at2(x, y, x2 - 1, y2);
        }
        assert forall|x: int, y: int| in_grid2(x, y, x2, y2 - 1) implies 0 <= #[trigger] at2(x, y, x2) < vh by {
            lemma_at2(x, y, x2, y2 - 1);
        }
        assert forall|x: int, y: int| in_grid2(x, y, x2, y2 - 1) implies 0 <= #[trigger] at2(y, x, y2 - 1) by {
            lemma_at2(y, x, y2 - 1, x2);
        }
        assert forall|l: int, x: int, y: int| in_grid3(l, x, y, n2, x2, y2) implies 0 <= #[trigger] at3(l, x, y, x2, y2) < cells by {
            lemma_at3(l, x, y, n2, x2, y2);
        }
        assert(caps3_upto(inp, c.h3@, true, n2, x2, y2, 0, 0));
        assert(caps3_upto(inp, c.v3@, false, n2, x2, y2, 0, 0));
        assert(caps2_upto(inp, c.h2@, true, x2, y2, 0, 0));
        assert(caps2_upto(inp, c.v2@, false, x2, y2, 0, 0));
        assert(c.h_capacity_3d@ =~= Seq::new(nl as nat, |l: int| if l < 0 && level_horizontal(inp, l + 1) { level_cap(inp, x2, y2, l + 1) } else { 0i16 }));
        assert(c.v_capacity_3d@ =~= Seq::new(nl as nat, |l: int| if l < 0 && !level_horizontal(inp, l + 1) { level_cap(inp, x2, y2, l + 1) } else { 0i16 }));
    }
    let mut done: i32 = 0;
    while done < core.num_layers
        invariant
            0 <= done <= core.num_layers,
            capacities_fit(inp, nl as int, xg as int, yg as int),
            inp == (CapacityInput {
                core: *core, layers: layers@, min: min_routing_layer as int, max: max_routing_layer as int,
                infinite: infinite_capacity,
            }),
            c.wf(),
            (c.x_grid, c.y_grid, c.num_layers) == (xg, yg, nl),
            capacities_upto(inp, c, done as int, 0),
            level_caps_upto(inp, c, done as int),
        decreases core.num_layers - done,
    {
        let layer: i32 = done + 1;
        let info = layers[(layer - 1) as usize];
        let inside = layer >= min_routing_layer && layer <= max_routing_layer;
        let tracks = match info.tracks {
            Some(t) => t,
            None => RoutingTracks { layer_index: 0, track_pitch: 0, location: 0, num_tracks: 0 },
        };
        let horizontal = match info.direction {
            Some(Direction::Horizontal) => true,
            _ => false,
        };
        let mut min_cap: i32 = i32::MAX;
        let ghost want = edge_order(xg as int, yg as int, horizontal);
        proof {
            let (inner, outer) = if horizontal { (xg - 1, yg as int) } else { (yg - 1, xg as int) };
            assert(inner > 0 && outer > 0 ==> outer * inner <= yg * xg) by (nonlinear_arith)
                requires
                    (inner == xg - 1 && outer == yg) || (inner == yg - 1 && outer == xg),
            ;
        }
        let order = capacity_edge_order(xg, yg, horizontal);
        let mut k: usize = 0;
        while k < order.len()
            invariant
                k <= order@.len(),
                1 <= layer <= core.num_layers,
                capacities_fit(inp, nl as int, xg as int, yg as int),
                inp == (CapacityInput {
                    core: *core, layers: layers@, min: min_routing_layer as int, max: max_routing_layer as int,
                    infinite: infinite_capacity,
                }),
                c.wf(),
                (c.x_grid, c.y_grid, c.num_layers) == (xg, yg, nl),
                capacities_upto(inp, c, layer - 1, k as int),
                level_caps_upto(inp, c, layer - 1),
                horizontal == level_horizontal(inp, layer as int),
                tracks == level_tracks(inp, layer as int),
                inside == (inp.min <= layer <= inp.max),
                want == edge_order(xg as int, yg as int, horizontal),
                int_edges(order@) == want,
                min_cap == least_cap(inp, layer as int, want, k as int),
            decreases order@.len() - k,
        {
            let (x1, y1) = order[k].0;
            proof {
                assert(want[k as int] == int_edges(order@)[k as int]);
                lemma_edge_order(xg as int, yg as int, horizontal, k as int);
                assert(level_fits(inp, xg as int, yg as int, layer as int));
                assert(inside && !infinite_capacity ==> gcell_capacity_fits(
                    *core, x1 as int, y1 as int, tracks.location as int, tracks.track_pitch as int, tracks.num_tracks as int, horizontal));
            }
            let cap: i32 = if infinite_capacity {
                INFINITE_CAPACITY
            } else if inside {
                compute_gcell_capacity(core, x1, y1, tracks.location, tracks.track_pitch, tracks.num_tracks, horizontal)
            } else {
                0
            };
            min_cap = min_cap.min(cap);
            set_edge(&mut c, horizontal, layer, x1, y1, cap, Ghost(inp), Ghost(k as int));
            k += 1;
        }
        let ghost before = c;
        let m: i32 = if min_cap == i32::MAX { 0 } else { min_cap };
        let narrow: i16 = #[verifier::truncate] (m as i16);
        assert(order@.len() == want.len()) by {
            assert(int_edges(order@).len() == order@.len());
        }
        assert(narrow == level_cap(inp, xg as int, yg as int, layer as int));
        proof {
            lemma_level_done(inp, c, layer - 1);
            assert(fits(level_cap_sum(inp, xg as int, yg as int, true, layer as int)));
            assert(fits(level_cap_sum(inp, xg as int, yg as int, true, layer - 1)));
        }
        if horizontal {
            c.h_capacity_3d[(layer - 1) as usize] = narrow;
            c.h_capacity = c.h_capacity + narrow as i32;
        } else {
            c.v_capacity_3d[(layer - 1) as usize] = narrow;
            c.v_capacity = c.v_capacity + narrow as i32;
        }
        proof {
            let (x2, y2) = (xg as int, yg as int);
            assert(capacities_upto(inp, c, layer as int, 0)) by {
                assert(c.h3 == before.h3 && c.v3 == before.v3 && c.h2 == before.h2 && c.v2 == before.v2);
            }
            assert(c.h_capacity_3d@ =~= Seq::new(nl as nat, |l: int| if l < layer && level_horizontal(inp, l + 1) { level_cap(inp, x2, y2, l + 1) } else { 0i16 }));
            assert(c.v_capacity_3d@ =~= Seq::new(nl as nat, |l: int| if l < layer && !level_horizontal(inp, l + 1) { level_cap(inp, x2, y2, l + 1) } else { 0i16 }));
        }
        done = layer;
    }
    c
}

/// The per-layer capacities of one direction in the transposed layout `(l * x_grid + x) * y_grid + y`:
/// only edges inside the grid are copied, the rest are 0.
pub open spec fn per_layer(v: Seq<u16>, horizontal: bool, nl: int, xg: int, yg: int, r: Seq<(u16, u16)>) -> bool {
    &&& r.len() == nl * xg * yg
    &&& forall|l: int, x: int, y: int|
        in_grid3(l, y, x, nl, yg, xg) ==> r[#[trigger] at3(l, y, x, yg, xg)] == (if (if horizontal {
            x < xg - 1
        } else {
            y < yg - 1
        }) {
            (v[at3(l, x, y, xg, yg)], v[at3(l, x, y, xg, yg)])
        } else {
            (0u16, 0u16)
        })
}

/// The per-layer capacity that the 2D phases watch, copied from the 3D edges and transposed: the
/// capacity, and the capacity for nets with a rule of their own, which starts out the same.
///
/// Returns `(horizontal, vertical)`.
pub fn init_edges_capacity_per_layer(c: &EdgeCapacities) -> (r: (Vec<(u16, u16)>, Vec<(u16, u16)>))
    requires
        c.wf(),
    ensures
        per_layer(c.h3@, true, c.num_layers as int, c.x_grid as int, c.y_grid as int, r.0@),
        per_layer(c.v3@, false, c.num_layers as int, c.x_grid as int, c.y_grid as int, r.1@),
{
    let (xg, yg, nl) = (c.x_grid, c.y_grid, c.num_layers);
    let mut h: Vec<(u16, u16)> = Vec::new();
    let mut v: Vec<(u16, u16)> = Vec::new();
    let mut l: i32 = 0;
    assert(0 * xg == 0 && 0 * yg == 0);
    while l < nl
        invariant
            c.wf(),
            (xg, yg, nl) == (c.x_grid, c.y_grid, c.num_layers),
            0 <= l <= nl,
            h@.len() == v@.len() == l * xg * yg,
            forall|a: int, x: int, y: int|
                in_grid3(a, y, x, l as int, yg as int, xg as int) ==> h@[#[trigger] at3(a, y, x, yg as int, xg as int)]
                    == transposed(c.h3@, x < xg - 1, a, x, y, xg as int, yg as int) && v@[at3(a, y, x, yg as int, xg as int)]
                    == transposed(c.v3@, y < yg - 1, a, x, y, xg as int, yg as int),
        decreases nl - l,
    {
        let mut x: i32 = 0;
        while x < xg
            invariant
                c.wf(),
                (xg, yg, nl) == (c.x_grid, c.y_grid, c.num_layers),
                0 <= l < nl,
                0 <= x <= xg,
                h@.len() == v@.len() == (l * xg + x) * yg,
                forall|a: int, b: int, y: int|
                    in_grid3(a, y, b, l + 1, yg as int, xg as int) && (a < l || b < x) ==> h@[#[trigger] at3(a, y, b, yg as int, xg as int)]
                        == transposed(c.h3@, b < xg - 1, a, b, y, xg as int, yg as int) && v@[at3(a, y, b, yg as int, xg as int)]
                        == transposed(c.v3@, y < yg - 1, a, b, y, xg as int, yg as int),
            decreases xg - x,
        {
            let mut y: i32 = 0;
            while y < yg
                invariant
                    c.wf(),
                    (xg, yg, nl) == (c.x_grid, c.y_grid, c.num_layers),
                    0 <= l < nl,
                    0 <= x < xg,
                    0 <= y <= yg,
                    h@.len() == v@.len() == (l * xg + x) * yg + y,
                    forall|a: int, b: int, d: int|
                        in_grid3(a, d, b, l + 1, yg as int, xg as int) && (a < l || b < x || (b == x && d < y)) ==> h@[#[trigger] at3(a, d, b, yg as int, xg as int)]
                            == transposed(c.h3@, b < xg - 1, a, b, d, xg as int, yg as int) && v@[at3(a, d, b, yg as int, xg as int)]
                            == transposed(c.v3@, d < yg - 1, a, b, d, xg as int, yg as int),
                decreases yg - y,
            {
                let i: usize = c.at3(l, x, y);
                let ghost (h0, v0) = (h@, v@);
                h.push(if x < xg - 1 { (c.h3[i], c.h3[i]) } else { (0, 0) });
                v.push(if y < yg - 1 { (c.v3[i], c.v3[i]) } else { (0, 0) });
                proof {
                    let n = h0.len() as int;
                    assert(n == at3(l as int, y as int, x as int, yg as int, xg as int));
                    assert forall|a: int, b: int, d: int|
                        in_grid3(a, d, b, l + 1, yg as int, xg as int) && (a < l || b < x || (b == x && d < y + 1)) implies h@[#[trigger] at3(a, d, b, yg as int, xg as int)]
                        == transposed(c.h3@, b < xg - 1, a, b, d, xg as int, yg as int) && v@[at3(a, d, b, yg as int, xg as int)]
                        == transposed(c.v3@, d < yg - 1, a, b, d, xg as int, yg as int) by {
                        if a == l && b == x && d == y {
                        } else {
                            lemma_earlier(a, b, d, l as int, x as int, y as int, xg as int, yg as int);
                            lemma_at3(a, d, b, l + 1, yg as int, xg as int);
                        }
                    }
                }
                y += 1;
            }
            proof {
                assert((l * xg + (x + 1)) * yg == (l * xg + x) * yg + yg) by (nonlinear_arith);
            }
            x += 1;
        }
        proof {
            assert((l * xg + xg) * yg == (l + 1) * xg * yg) by (nonlinear_arith);
        }
        l += 1;
    }
    proof {
        assert(nl * xg * yg == nl * yg * xg) by (nonlinear_arith);
    }
    (h, v)
}

/// A copied edge: its capacity twice, or nothing for one past the grid.
pub open spec fn transposed(v: Seq<u16>, inside: bool, l: int, x: int, y: int, xg: int, yg: int) -> (u16, u16) {
    if inside {
        (v[at3(l, x, y, xg, yg)], v[at3(l, x, y, xg, yg)])
    } else {
        (0u16, 0u16)
    }
}

proof fn lemma_earlier(a: int, b: int, d: int, l: int, x: int, y: int, xg: int, yg: int)
    requires
        0 <= a <= l,
        0 <= b < xg,
        0 <= d < yg,
        0 <= x < xg,
        0 <= y < yg,
        a < l || b < x || (b == x && d < y),
    ensures
        at3(a, d, b, yg, xg) < at3(l, y, x, yg, xg),
{
    let (p, q) = (a * xg + b, l * xg + x);
    if a < l {
        assert((a + 1) * xg <= l * xg) by (nonlinear_arith)
            requires
                a + 1 <= l,
                0 < xg,
        ;
        assert((a + 1) * xg == a * xg + xg) by (nonlinear_arith);
    }
    if p < q {
        assert((p + 1) * yg <= q * yg) by (nonlinear_arith)
            requires
                p + 1 <= q,
                0 < yg,
        ;
        assert((p + 1) * yg == p * yg + yg) by (nonlinear_arith);
    }
}

/// The capacity of a direction is the sum over the levels that run in it.
pub proof fn the_capacity_of_a_direction_is_that_of_its_levels(c: CapacityInput, xg: int, yg: int, horizontal: bool, n: int)
    requires
        0 <= n,
    ensures
        level_cap_sum(c, xg, yg, horizontal, n) == sum_of(
            n,
            |k: int| if (c.layers[k].direction == Some(Direction::Horizontal)) == horizontal { level_cap(c, xg, yg, k + 1) as int } else { 0 },
        ),
    decreases n,
{
    let f = |k: int| if (c.layers[k].direction == Some(Direction::Horizontal)) == horizontal { level_cap(c, xg, yg, k + 1) as int } else { 0 };
    if n > 0 {
        the_capacity_of_a_direction_is_that_of_its_levels(c, xg, yg, horizontal, n - 1);
        lemma_sum_next(n - 1, f);
    } else {
        lemma_sum_none(f);
    }
}

/// The least capacity of a layer is that of one of its edges, and no edge has less.
pub proof fn the_least_capacity_is_that_of_an_edge(c: CapacityInput, layer: int, order: Seq<((int, int), (int, int))>, n: int)
    requires
        0 <= n,
    ensures
        is_least_of(least_cap(c, layer, order, n), i32::MAX as int, n, |k: int| edge_cap(c, layer, order[k].0.0, order[k].0.1)),
    decreases n,
{
    let f = |k: int| edge_cap(c, layer, order[k].0.0, order[k].0.1);
    if n > 0 {
        the_least_capacity_is_that_of_an_edge(c, layer, order, n - 1);
        let m = least_cap(c, layer, order, (n - 1));
        assert forall|k: int| 0 <= k < n implies #[trigger] f(k) >= least_cap(c, layer, order, n) by {
            if k < n - 1 {
                assert(f(k) >= m);
            }
        }
        if least_cap(c, layer, order, n) == m {
            if m != i32::MAX as int {
                let k = choose|k: int| 0 <= k < n - 1 && #[trigger] f(k) == m;
                assert(f(k) == least_cap(c, layer, order, n));
            }
        } else {
            assert(f(n - 1) == least_cap(c, layer, order, n));
        }
    }
}

/// The numbered layers are those with a routing level, in order, numbered from one.
pub proof fn the_numbered_layers_are_the_routing_layers(s: Seq<RoutingLayer>)
    requires
        s.len() < i32::MAX,
    ensures
        numbered_layers(s).map_values(|e: (i32, RoutingLayer)| e.1) == s.filter(|l: RoutingLayer| l.routing_level != 0),
        forall|i: int| 0 <= i < numbered_layers(s).len() ==> (#[trigger] numbered_layers(s)[i]).0 == i + 1,
        numbered_layers(s).len() <= s.len(),
    decreases s.len(),
{
    reveal(Seq::filter);
    let f = |e: (i32, RoutingLayer)| e.1;
    let r = numbered_layers(s);
    if s.len() > 0 {
        let t = s.drop_last();
        the_numbered_layers_are_the_routing_layers(t);
        let q = numbered_layers(t);
        if s.last().routing_level != 0 {
            assert(r.map_values(f) =~= q.map_values(f).push(s.last()));
        }
        assert forall|i: int| 0 <= i < r.len() implies (#[trigger] r[i]).0 == i + 1 by {
            if i < q.len() {
                assert(q[i].0 == i + 1);
            }
        }
    } else {
        assert(r.map_values(f) =~= Seq::empty());
    }
    assert(r.map_values(f) =~= s.filter(|l: RoutingLayer| l.routing_level != 0));
}

/// The layer at a level is the first that has it, and one is found wherever one has.
pub proof fn a_layer_is_found_by_its_level(layers: Seq<RoutingLayer>, level: int)
    ensures
        match layer_at_level(layers, level) {
            Some(l) => exists|i: int|
                0 <= i < layers.len() && #[trigger] layers[i] == l && l.routing_level == level && (forall|j: int|
                    0 <= j < i ==> (#[trigger] layers[j]).routing_level != level),
            None => forall|j: int| 0 <= j < layers.len() ==> (#[trigger] layers[j]).routing_level != level,
        },
    decreases layers.len(),
{
    if layers.len() > 0 {
        if layers[0].routing_level == level {
            assert(layers[0] == layer_at_level(layers, level)->0);
        } else {
            let t = layers.drop_first();
            a_layer_is_found_by_its_level(t, level);
            match layer_at_level(t, level) {
                Some(l) => {
                    let i = choose|i: int|
                        0 <= i < t.len() && #[trigger] t[i] == l && l.routing_level == level && (forall|j: int|
                            0 <= j < i ==> (#[trigger] t[j]).routing_level != level);
                    assert(layers[i + 1] == l);
                    assert forall|j: int| 0 <= j < i + 1 implies (#[trigger] layers[j]).routing_level != level by {
                        if j > 0 {
                            assert(t[j - 1] == layers[j]);
                        }
                    }
                },
                None => {
                    assert forall|j: int| 0 <= j < layers.len() implies (#[trigger] layers[j]).routing_level != level by {
                        if j > 0 {
                            assert(t[j - 1] == layers[j]);
                        }
                    }
                },
            }
        }
    }
}

} // verus!
