//! The technology's part of the setup: the routed levels, the capacities and the router's first edges.

use crate::lists::{all_of, is_most_of, lemma_all_next, lemma_all_none};
use vstd::prelude::*;
use vstd::string::StringExecFns;

use super::obstructions::{direction_at, direction_of};
use crate::adjust::{BlockedMap, EdgeState, RouterEdges};
use crate::capacity::{
    capacities_fit, capacities_upto, check_adjacent_layers_direction, clash, init_routing_layers, layer_at_level, layer_error_text, layer_rejected, level_caps_upto, mirror_grid_to_fast_route,
    numbered_layers, set_capacities, CapacityInput, CapacityLayer, Direction, EdgeCapacities, FastRouteGrid, LayerError, RoutingLayer,
};
use crate::driver::{get_min_max_layer, tracked_run};
use crate::init::CoreGrid;
use crate::text::{push_text, texts};
use crate::tracks::RoutingTracks;

verus! {

/// What the block says of its routed levels; a maximum of -1 is unset.
#[derive(Debug, Clone, Copy, PartialEq, Eq, Structural)]
pub struct BlockLevels {
    pub block_min: i32,
    pub block_max: i32,
    pub clock_min: i32,
    pub clock_max: i32,
}

/// A technology that cannot be routed on.
#[derive(Debug)]
pub enum TechError {
    /// The lowest routing level has no track grid.
    NoTracks,
    Layer(LayerError),
}

/// What is said of it.
pub open spec fn tech_error_text(e: TechError) -> Seq<char> {
    match e {
        TechError::NoTracks => "GRT-0701: the lowest routing layer has no track grid"@,
        TechError::Layer(inner) => layer_error_text(inner),
    }
}

impl TechError {
    /// What is said of it.
    pub fn message(&self) -> (s: String)
        ensures
            s@ == tech_error_text(*self),
    {
        match self {
            TechError::NoTracks => String::from_str("GRT-0701: the lowest routing layer has no track grid"),
            TechError::Layer(inner) => inner.message(),
        }
    }
}

/// The routed levels and the numbered layers.
#[derive(Debug)]
pub struct TechSetup {
    /// The block's maximum, which is written back where it was unset.
    pub block_max: i32,
    pub min_routing_layer: i32,
    pub max_routing_layer: i32,
    pub routing_layers: Vec<(i32, RoutingLayer)>,
}

/// Whether each layer has a track grid.
pub open spec fn track_flags(layers: Seq<RoutingLayer>) -> Seq<bool> {
    layers.map_values(|l: RoutingLayer| l.has_track_grid)
}

/// The routed levels: the block's maximum, computed where it is unset, and the range with the clock's levels.
pub open spec fn level_range(b: BlockLevels, layers: Seq<RoutingLayer>) -> (int, int, int) {
    let m = if b.block_max == -1 { tracked_run(track_flags(layers), layers.len() as int) } else { b.block_max as int };
    (m, if b.clock_min > 0 && b.clock_min < b.block_min { b.clock_min as int } else { b.block_min as int }, if b.clock_max > m { b.clock_max as int } else { m })
}

/// Whether a technology's layers can all be routed on.
pub open spec fn layers_ok(layers: Seq<RoutingLayer>, min: int, max: int) -> bool {
    forall|i: int| 0 <= i < layers.len() ==> !layer_rejected(#[trigger] layers[i], min, max)
}

/// Whether neighbouring levels of a range all prefer different directions.
pub open spec fn directions_alternate(layers: Seq<RoutingLayer>, min: int, max: int) -> bool {
    forall|l: int| min <= l < max ==> !#[trigger] clash(layers, l)
}

/// Whether a layer is the first that cannot be routed on.
pub open spec fn is_first_rejected(layers: Seq<RoutingLayer>, min: int, max: int, i: int) -> bool {
    &&& 0 <= i < layers.len()
    &&& layer_rejected(layers[i], min, max)
    &&& forall|j: int| 0 <= j < i ==> !layer_rejected(#[trigger] layers[j], min, max)
}

/// What is wrong with a layer that cannot be routed on.
pub open spec fn rejection(l: RoutingLayer) -> LayerError {
    if l.direction is None { LayerError::NoDirection { layer: l.name } } else { LayerError::NoTrackGrid { layer: l.name } }
}

/// Whether a level is the first that prefers the direction of the next.
pub open spec fn is_first_clash(layers: Seq<RoutingLayer>, min: int, max: int, l: int) -> bool {
    &&& min <= l < max
    &&& clash(layers, l)
    &&& forall|k: int| min <= k < l ==> !#[trigger] clash(layers, k)
}

/// What is wrong with a level that prefers the direction of the next.
pub open spec fn clash_error(layers: Seq<RoutingLayer>, l: int) -> LayerError {
    LayerError::SameDirection { a: layer_at_level(layers, l)->0.name, b: layer_at_level(layers, l + 1)->0.name, direction: layer_at_level(layers, l)->0.direction->0 }
}

/// Finds the routed levels and numbers the layers. Refused where the lowest level has no track grid while the
/// block's maximum is unset, where a layer cannot be routed on, and where neighbouring levels prefer one
/// direction.
pub fn setup_tech(b: BlockLevels, layers: &[RoutingLayer]) -> (r: Result<TechSetup, TechError>)
    requires
        layers@.len() < i32::MAX,
    ensures
        ({
            let (m, min, max) = level_range(b, layers@);
            let has_tracks = !(b.block_max == -1 && tracked_run(track_flags(layers@), layers@.len() as int) == 0);
            match r {
                Ok(t) => {
                    &&& has_tracks
                    &&& layers_ok(layers@, min, max)
                    &&& directions_alternate(layers@, min, max)
                    &&& t.block_max == m && t.min_routing_layer == min && t.max_routing_layer == max
                    &&& t.routing_layers@ == numbered_layers(layers@)
                },
                Err(TechError::NoTracks) => !has_tracks,
                Err(TechError::Layer(e)) => {
                    &&& has_tracks
                    &&& if !layers_ok(layers@, min, max) {
                        exists|i: int| #[trigger] is_first_rejected(layers@, min, max, i) && e == rejection(layers@[i])
                    } else {
                        exists|l: int| #[trigger] is_first_clash(layers@, min, max, l) && e == clash_error(layers@, l)
                    }
                },
            }
        }),
{
    let mut flags: Vec<bool> = Vec::new();
    let mut i: usize = 0;
    while i < layers.len()
        invariant
            i <= layers@.len(),
            flags@ == track_flags(layers@).take(i as int),
        decreases layers@.len() - i,
    {
        flags.push(layers[i].has_track_grid);
        i += 1;
        assert(flags@ =~= track_flags(layers@).take(i as int));
    }
    assert(flags@ =~= track_flags(layers@));
    let (block_max, min, max) = match get_min_max_layer(b.block_max, flags.as_slice(), b.block_min, b.clock_min, b.clock_max) {
        Some(t) => t,
        None => {
            return Err(TechError::NoTracks);
        },
    };
    let routing_layers = match init_routing_layers(layers, min, max) {
        Ok(v) => v,
        Err(e) => {
            proof {
                let i = choose|i: int| #![trigger layers@[i]] {
                    &&& 0 <= i < layers@.len()
                    &&& layer_rejected(layers@[i], min as int, max as int)
                    &&& forall|j: int| 0 <= j < i ==> !layer_rejected(#[trigger] layers@[j], min as int, max as int)
                    &&& e == rejection(layers@[i])
                };
                assert(is_first_rejected(layers@, min as int, max as int, i));
            }
            return Err(TechError::Layer(e));
        },
    };
    match check_adjacent_layers_direction(layers, min, max) {
        Ok(()) => {},
        Err(e) => {
            proof {
                let l = choose|l: int| {
                    &&& min <= l < max
                    &&& #[trigger] clash(layers@, l)
                    &&& forall|k: int| min <= k < l ==> !#[trigger] clash(layers@, k)
                    &&& e == clash_error(layers@, l)
                };
                assert(is_first_clash(layers@, min as int, max as int, l));
            }
            return Err(TechError::Layer(e));
        },
    }
    Ok(TechSetup { block_max, min_routing_layer: min, max_routing_layer: max, routing_layers })
}

// ---- capacities ----

/// The first tracks of a level, from the `k`-th on.
pub open spec fn tracks_at(tracks: Seq<RoutingTracks>, level: int, k: int) -> Option<RoutingTracks>
    decreases tracks.len() - k,
{
    if k >= tracks.len() {
        None
    } else if tracks[k].layer_index == level {
        Some(tracks[k])
    } else {
        tracks_at(tracks, level, k + 1)
    }
}

/// The first tracks of a level.
pub fn find_tracks(tracks: &Vec<RoutingTracks>, level: i32) -> (r: Option<RoutingTracks>)
    ensures
        r == tracks_at(tracks@, level as int, 0),
{
    let mut k: usize = 0;
    while k < tracks.len()
        invariant
            k <= tracks@.len(),
            tracks_at(tracks@, level as int, k as int) == tracks_at(tracks@, level as int, 0),
        decreases tracks@.len() - k,
    {
        if tracks[k].layer_index == level {
            return Some(tracks[k]);
        }
        k += 1;
    }
    None
}

/// The levels' directions and tracks, from level 1.
pub open spec fn capacity_layers(layers: Seq<RoutingLayer>, tracks: Seq<RoutingTracks>, n: int) -> Seq<CapacityLayer> {
    Seq::new(n as nat, |l: int| CapacityLayer { direction: direction_at(layers, l + 1), tracks: tracks_at(tracks, l + 1, 0) })
}

/// What the capacities are computed from.
pub open spec fn capacity_input(core: CoreGrid, layers: Seq<RoutingLayer>, tracks: Seq<RoutingTracks>, min: int, max: int, infinite: bool) -> CapacityInput {
    CapacityInput { core, layers: capacity_layers(layers, tracks, core.num_layers as int), min, max, infinite }
}

/// The router's grid and capacities: each level's direction is its layer's, its tracks the first of the level.
pub fn setup_capacities(core: &CoreGrid, layers: &[RoutingLayer], tracks: &Vec<RoutingTracks>, min: i32, max: i32, infinite: bool) -> (r: (FastRouteGrid, EdgeCapacities))
    requires
        0 <= core.num_layers < i32::MAX,
        capacities_fit(capacity_input(*core, layers@, tracks@, min as int, max as int, infinite), core.num_layers as int, core.x_grids as int, core.y_grids as int),
    ensures
        r.0.directions@ == Seq::new(core.num_layers as nat, |l: int| direction_at(layers@, l + 1)),
        (r.0.x_grid, r.0.y_grid, r.0.num_layers) == (core.x_grids, core.y_grids, core.num_layers),
        r.1.wf(),
        (r.1.x_grid, r.1.y_grid, r.1.num_layers) == (core.x_grids, core.y_grids, core.num_layers),
        capacities_upto(capacity_input(*core, layers@, tracks@, min as int, max as int, infinite), r.1, core.num_layers as int, 0),
        level_caps_upto(capacity_input(*core, layers@, tracks@, min as int, max as int, infinite), r.1, core.num_layers as int),
{
    let mut directions: Vec<Option<Direction>> = Vec::new();
    let mut list: Vec<CapacityLayer> = Vec::new();
    let mut l: i32 = 0;
    while l < core.num_layers
        invariant
            0 <= l <= core.num_layers < i32::MAX,
            directions@ == Seq::new(l as nat, |k: int| direction_at(layers@, k + 1)),
            list@ == capacity_layers(layers@, tracks@, l as int),
        decreases core.num_layers - l,
    {
        let direction = direction_of(layers, l + 1);
        directions.push(direction);
        list.push(CapacityLayer { direction, tracks: find_tracks(tracks, l + 1) });
        l += 1;
        assert(directions@ =~= Seq::new(l as nat, |k: int| direction_at(layers@, k + 1)));
        assert(list@ =~= capacity_layers(layers@, tracks@, l as int));
    }
    let fr = mirror_grid_to_fast_route(core, directions.as_slice());
    assert(fr.directions@ =~= Seq::new(core.num_layers as nat, |l: int| direction_at(layers@, l + 1)));
    let c = set_capacities(&fr, core, list.as_slice(), min, max, infinite);
    (fr, c)
}

// ---- the first edges ----

fn fresh(caps: &Vec<u16>) -> (v: Vec<EdgeState>)
    ensures
        v@ == caps@.map_values(|c: u16| EdgeState { cap: c, red: 0, real_cap: 0 }),
{
    let mut v: Vec<EdgeState> = Vec::new();
    let mut i: usize = 0;
    while i < caps.len()
        invariant
            i <= caps@.len(),
            v@ == caps@.take(i as int).map_values(|c: u16| EdgeState { cap: c, red: 0, real_cap: 0 }),
        decreases caps@.len() - i,
    {
        v.push(EdgeState { cap: caps[i], red: 0, real_cap: 0 });
        i += 1;
        assert(v@ =~= caps@.take(i as int).map_values(|c: u16| EdgeState { cap: c, red: 0, real_cap: 0 }));
    }
    assert(caps@.take(i as int) =~= caps@);
    v
}

/// The track pitches of the levels, from level 1; 0 for a level without tracks.
pub open spec fn pitches(tracks: Seq<RoutingTracks>, n: int) -> Seq<i32> {
    Seq::new(n as nat, |l: int| match tracks_at(tracks, l + 1, 0) {
        Some(t) => t.track_pitch,
        None => 0i32,
    })
}

/// The router's edges before any adjustment: every edge has its capacity and no reduction.
pub fn first_edges(core: &CoreGrid, c: &EdgeCapacities, tracks: &Vec<RoutingTracks>, verbose: bool) -> (e: RouterEdges)
    requires
        c.wf(),
        c.x_grid >= 1,
        c.y_grid >= 1,
        c.num_layers * c.y_grid * c.x_grid <= i32::MAX,
        c.y_grid * c.x_grid <= i32::MAX,
        c.h2@.len() == c.y_grid * (c.x_grid - 1),
        c.v2@.len() == (c.y_grid - 1) * c.x_grid,
        core.num_layers < i32::MAX,
    ensures
        e.wf(),
        (e.die, e.tile_size, e.x_grid, e.y_grid, e.num_layers) == (core.area, core.tile_size, c.x_grid, c.y_grid, c.num_layers),
        e.track_pitches@ == pitches(tracks@, if core.num_layers < 0 { 0 } else { core.num_layers as int }),
        e.h3@ == c.h3@.map_values(|c: u16| EdgeState { cap: c, red: 0, real_cap: 0 }),
        e.v3@ == c.v3@.map_values(|c: u16| EdgeState { cap: c, red: 0, real_cap: 0 }),
        e.h2@ == c.h2@.map_values(|c: u16| EdgeState { cap: c, red: 0, real_cap: 0 }),
        e.v2@ == c.v2@.map_values(|c: u16| EdgeState { cap: c, red: 0, real_cap: 0 }),
        e.verbose == verbose,
        e@.blocked == Map::<(bool, crate::adjust::Tile), Seq<(i32, i32)>>::empty(),
        e.log@.len() == 0,
{
    let mut track_pitches: Vec<i32> = Vec::new();
    let mut l: i32 = 0;
    while l < core.num_layers
        invariant
            0 <= l,
            l <= core.num_layers || l == 0,
            core.num_layers < i32::MAX,
            track_pitches@ == pitches(tracks@, l as int),
        decreases core.num_layers - l,
    {
        let p: i32 = match find_tracks(tracks, l + 1) {
            Some(t) => t.track_pitch,
            None => 0,
        };
        track_pitches.push(p);
        l += 1;
        assert(track_pitches@ =~= pitches(tracks@, l as int));
    }
    let e = RouterEdges {
        die: core.area,
        tile_size: core.tile_size,
        x_grid: c.x_grid,
        y_grid: c.y_grid,
        num_layers: c.num_layers,
        track_pitches,
        h3: fresh(&c.h3),
        v3: fresh(&c.v3),
        h2: fresh(&c.h2),
        v2: fresh(&c.v2),
        horizontal_blocked: BlockedMap::new(),
        vertical_blocked: BlockedMap::new(),
        verbose,
        log: Vec::new(),
    };
    assert(e@.blocked =~= Map::<(bool, crate::adjust::Tile), Seq<(i32, i32)>>::empty());
    e
}


// ---- spacings and transition levels ----

/// What the halo of a level is computed from: the spacing at its largest width, and its other spacing rules.
#[derive(Debug)]
pub struct SpacingFacts {
    pub level: i32,
    pub name: String,
    pub spacing: i32,
    pub rules: Vec<i32>,
    /// Whether the level has a table of spacings between two widths.
    pub has_two_widths: bool,
}

/// A layer whose spacing is in a table between two widths, which is not read.
#[derive(Debug)]
pub struct TwoWidths {
    pub layer: String,
}

/// What is said of it.
pub open spec fn two_widths_text(e: TwoWidths) -> Seq<char> {
    match e {
        TwoWidths { layer } => "layer "@ + layer@ + ": a TWOWIDTHS table \u{2014} its last entry is not bound"@,
    }
}

impl TwoWidths {
    /// What is said of it.
    pub fn message(&self) -> (s: String)
        ensures
            s@ == two_widths_text(*self),
    {
        match self {
            TwoWidths { layer } => {
                let mut s = String::from_str("layer ");
                s.append(layer.as_str());
                s.append(": a TWOWIDTHS table \u{2014} its last entry is not bound");
                s
            },
        }
    }
}

/// The largest of a spacing and the first `n` rules.
pub open spec fn largest_spacing(spacing: i32, rules: Seq<i32>, n: int) -> i32
    decreases n,
{
    if n <= 0 {
        spacing
    } else {
        let m = largest_spacing(spacing, rules, n - 1);
        if rules[n - 1] > m { rules[n - 1] } else { m }
    }
}

/// The halos by level after the first `n` layers.
pub open spec fn halos(facts: Seq<SpacingFacts>, min: int, max: int, n: int) -> Seq<i32>
    decreases n,
{
    if n <= 0 {
        Seq::new(facts.len() + 1, |l: int| 0i32)
    } else {
        let h = halos(facts, min, max, n - 1);
        let f = facts[n - 1];
        if min <= f.level <= max { h.update(f.level as int, largest_spacing(f.spacing, f.rules@, f.rules@.len() as int)) } else { h }
    }
}

/// Whether a routed level has a table of spacings between two widths.
pub open spec fn is_refused(f: SpacingFacts, min: int, max: int) -> bool {
    min <= f.level <= max && f.has_two_widths
}

/// Whether a layer is the first that is refused.
pub open spec fn is_first_refused(facts: Seq<SpacingFacts>, min: int, max: int, k: int) -> bool {
    0 <= k < facts.len() && is_refused(facts[k], min, max) && forall|j: int| 0 <= j < k ==> !is_refused(#[trigger] facts[j], min, max)
}

/// By how much the macros' obstructions are widened on each routed level: the largest of its spacings.
/// Refused at the first routed level with a table of spacings between two widths.
pub fn find_layer_extensions(facts: &Vec<SpacingFacts>, min: i32, max: i32) -> (r: Result<Vec<i32>, TwoWidths>)
    requires
        facts@.len() < usize::MAX,
        forall|i: int| 0 <= i < facts@.len() && min <= (#[trigger] facts@[i]).level <= max ==> 0 <= facts@[i].level <= facts@.len(),
    ensures
        match r {
            Ok(v) => v@ == halos(facts@, min as int, max as int, facts@.len() as int) && forall|i: int| 0 <= i < facts@.len() ==> !is_refused(#[trigger] facts@[i], min as int, max as int),
            Err(e) => exists|k: int| #[trigger] is_first_refused(facts@, min as int, max as int, k) && e.layer@ == facts@[k].name@,
        },
{
    let mut ext: Vec<i32> = crate::vecs::filled(0i32, facts.len() + 1);
    let mut i: usize = 0;
    assert(ext@ =~= halos(facts@, min as int, max as int, 0));
    while i < facts.len()
        invariant
            i <= facts@.len(),
            forall|i: int| 0 <= i < facts@.len() && min <= (#[trigger] facts@[i]).level <= max ==> 0 <= facts@[i].level <= facts@.len(),
            ext@.len() == facts@.len() + 1,
            ext@ == halos(facts@, min as int, max as int, i as int),
            forall|j: int| 0 <= j < i ==> !is_refused(#[trigger] facts@[j], min as int, max as int),
        decreases facts@.len() - i,
    {
        let f = &facts[i];
        if min <= f.level && f.level <= max {
            let mut spacing: i32 = f.spacing;
            let mut k: usize = 0;
            while k < f.rules.len()
                invariant
                    k <= f.rules@.len(),
                    spacing == largest_spacing(f.spacing, f.rules@, k as int),
                decreases f.rules@.len() - k,
            {
                if f.rules[k] > spacing {
                    spacing = f.rules[k];
                }
                k += 1;
            }
            if f.has_two_widths {
                assert(is_first_refused(facts@, min as int, max as int, i as int));
                return Err(TwoWidths { layer: String::from_str(f.name.as_str()) });
            }
            ext.set(f.level as usize, spacing);
        }
        i += 1;
    }
    Ok(ext)
}

/// Whether a via is wider than four fifths of a pitch, as the quotient of the two in double precision is
/// compared with 0.8 in single precision, which is 13421773 / 2^24: the quotient is larger where it exceeds
/// that by more than half a unit in the last place, 2^-54. Without a pitch every positive width is.
pub open spec fn is_wide(width: int, pitch: int) -> bool {
    if pitch > 0 {
        width * 0x40_0000_0000_0000 > pitch * 0x33_3333_4000_0001
    } else if pitch < 0 {
        width * 0x40_0000_0000_0000 < pitch * 0x33_3333_4000_0001
    } else {
        width > 0
    }
}

fn is_wide_via(width: i32, pitch: i32) -> (r: bool)
    ensures
        r == is_wide(width as int, pitch as int),
{
    let a: i128 = width as i128 * 0x40_0000_0000_0000;
    let b: i128 = pitch as i128 * 0x33_3333_4000_0001;
    if pitch > 0 {
        a > b
    } else if pitch < 0 {
        a < b
    } else {
        width > 0
    }
}

/// A default via's box on a level.
#[derive(Debug, Clone, Copy, PartialEq, Eq, Structural)]
pub struct ViaBox {
    pub level: i32,
    pub dx: i32,
    pub dy: i32,
}

/// A default via: the level of its bottom layer, and its boxes.
#[derive(Debug)]
pub struct DefaultVia {
    pub level: i32,
    pub boxes: Vec<ViaBox>,
}

/// The first box on a level, from the `k`-th on.
pub open spec fn box_at(boxes: Seq<ViaBox>, level: int, k: int) -> Option<ViaBox>
    decreases boxes.len() - k,
{
    if k >= boxes.len() {
        None
    } else if boxes[k].level == level {
        Some(boxes[k])
    } else {
        box_at(boxes, level, k + 1)
    }
}

/// A via's width across its bottom level's direction; 0 without a box there.
pub open spec fn via_width(v: DefaultVia, layers: Seq<RoutingLayer>) -> int {
    match box_at(v.boxes@, v.level as int, 0) {
        None => 0,
        Some(b) => if direction_at(layers, v.level as int) == Some(Direction::Vertical) { b.dy as int } else { b.dx as int },
    }
}

/// Whether a via's bottom level is a transition level: routed, and the via wider across it than four fifths of
/// its track pitch.
pub open spec fn is_transition(v: DefaultVia, layers: Seq<RoutingLayer>, tracks: Seq<RoutingTracks>, max: int) -> bool {
    1 <= v.level <= max && is_wide(via_width(v, layers), match tracks_at(tracks, v.level as int, 0) {
        Some(t) => t.track_pitch as int,
        None => 0,
    })
}

/// The transition levels of the first `n` default vias.
pub open spec fn transition_levels(vias: Seq<DefaultVia>, layers: Seq<RoutingLayer>, tracks: Seq<RoutingTracks>, max: int, n: int) -> Seq<i32>
    decreases n,
{
    if n <= 0 {
        Seq::empty()
    } else {
        let s = transition_levels(vias, layers, tracks, max, n - 1);
        if is_transition(vias[n - 1], layers, tracks, max) { s.push(vias[n - 1].level) } else { s }
    }
}

/// The transition levels: the bottom levels of the default vias that are wide for them. The vias come in the
/// order of their levels.
pub fn find_transition_layers(vias: &Vec<DefaultVia>, layers: &[RoutingLayer], tracks: &Vec<RoutingTracks>, max: i32) -> (out: Vec<i32>)
    ensures
        out@ == transition_levels(vias@, layers@, tracks@, max as int, vias@.len() as int),
{
    let mut out: Vec<i32> = Vec::new();
    let mut i: usize = 0;
    while i < vias.len()
        invariant
            i <= vias@.len(),
            out@ == transition_levels(vias@, layers@, tracks@, max as int, i as int),
        decreases vias@.len() - i,
    {
        let v = &vias[i];
        if v.level <= max && v.level >= 1 {
            let vertical = match direction_of(layers, v.level) {
                Some(Direction::Vertical) => true,
                _ => false,
            };
            let mut k: usize = 0;
            while k < v.boxes.len() && v.boxes[k].level != v.level
                invariant
                    k <= v.boxes@.len(),
                    box_at(v.boxes@, v.level as int, k as int) == box_at(v.boxes@, v.level as int, 0),
                decreases v.boxes@.len() - k,
            {
                k += 1;
            }
            let width: i32 = if k == v.boxes.len() { 0 } else if vertical { v.boxes[k].dy } else { v.boxes[k].dx };
            let pitch: i32 = match find_tracks(tracks, v.level) {
                Some(t) => t.track_pitch,
                None => 0,
            };
            if is_wide_via(width, pitch) {
                out.push(v.level);
            }
        }
        i += 1;
    }
    out
}

/// The name of the first layer of a level, from the `k`-th on; empty without one.
pub open spec fn layer_named(layers: Seq<(i32, String)>, level: int, k: int) -> Seq<char>
    decreases layers.len() - k,
{
    if k >= layers.len() {
        Seq::empty()
    } else if layers[k].0 == level {
        layers[k].1@
    } else {
        layer_named(layers, level, k + 1)
    }
}

/// The warning on an adjustment of a layer above the highest routing layer.
pub open spec fn ignored_text(layer: Seq<char>, highest: Seq<char>) -> Seq<char> {
    "[WARNING GRT-0030] Specified layer "@ + layer + " for adjustment is greater than max routing layer "@ + highest + " and will be ignored."@
}

fn push_layer(s: &mut String, layers: &Vec<(i32, String)>, level: i32)
    ensures
        final(s)@ == old(s)@ + layer_named(layers@, level as int, 0),
{
    let ghost s0 = s@;
    let mut k: usize = 0;
    while k < layers.len() && layers[k].0 != level
        invariant
            k <= layers@.len(),
            layer_named(layers@, level as int, k as int) == layer_named(layers@, level as int, 0),
        decreases layers@.len() - k,
    {
        k += 1;
    }
    if k < layers.len() {
        s.append(layers[k].1.as_str());
    }
    assert(s@ =~= s0 + layer_named(layers@, level as int, 0));
}

/// What becomes of a level's adjustment: it is ignored on a level above the block's maximum, where that is set,
/// with a warning where warnings are wanted. The layers are by level and name.
pub fn add_layer_adjustment(level: i32, block_max: i32, layers: &Vec<(i32, String)>, verbose: bool, log: &mut Vec<String>) -> (ignored: bool)
    ensures
        ignored == (level > block_max && block_max > 0),
        texts(final(log)@) == (if ignored && verbose {
            texts(old(log)@).push(ignored_text(layer_named(layers@, level as int, 0), layer_named(layers@, block_max as int, 0)))
        } else {
            texts(old(log)@)
        }),
{
    if !(level > block_max && block_max > 0) {
        return false;
    }
    if verbose {
        let mut s = String::from_str("[WARNING GRT-0030] Specified layer ");
        push_layer(&mut s, layers, level);
        s.append(" for adjustment is greater than max routing layer ");
        push_layer(&mut s, layers, block_max);
        s.append(" and will be ignored.");
        push_text(log, s);
    }
    true
}

/// The levels with a transition are those of the vias that need one, in order.
pub proof fn the_transition_levels_are_those_of_the_vias_that_need_one(vias: Seq<DefaultVia>, layers: Seq<RoutingLayer>, tracks: Seq<RoutingTracks>, max: int, n: int)
    requires
        0 <= n,
    ensures
        transition_levels(vias, layers, tracks, max, n) == all_of(
            n,
            |k: int| if is_transition(vias[k], layers, tracks, max) { seq![vias[k].level] } else { Seq::empty() },
        ),
    decreases n,
{
    let f = |k: int| if is_transition(vias[k], layers, tracks, max) { seq![vias[k].level] } else { Seq::empty() };
    if n > 0 {
        the_transition_levels_are_those_of_the_vias_that_need_one(vias, layers, tracks, max, n - 1);
        lemma_all_next(n - 1, f);
    } else {
        lemma_all_none(f);
    }
    assert(transition_levels(vias, layers, tracks, max, n) =~= all_of(n, f));
}

/// The largest spacing is the layer's own or that of a rule, and no rule asks for more.
pub proof fn the_largest_spacing_is_that_of_a_rule(spacing: i32, rules: Seq<i32>, n: int)
    requires
        0 <= n,
    ensures
        is_most_of(largest_spacing(spacing, rules, n) as int, spacing as int, n, |k: int| rules[k] as int),
    decreases n,
{
    let f = |k: int| rules[k] as int;
    if n > 0 {
        the_largest_spacing_is_that_of_a_rule(spacing, rules, n - 1);
        let m = largest_spacing(spacing, rules, (n - 1)) as int;
        assert forall|k: int| 0 <= k < n implies #[trigger] f(k) <= largest_spacing(spacing, rules, n) as int by {
            if k < n - 1 {
                assert(f(k) <= m);
            }
        }
        if largest_spacing(spacing, rules, n) as int == m {
            if m != spacing as int {
                let k = choose|k: int| 0 <= k < n - 1 && #[trigger] f(k) == m;
                assert(f(k) == largest_spacing(spacing, rules, n) as int);
            }
        } else {
            assert(f(n - 1) == largest_spacing(spacing, rules, n) as int);
        }
    }
}

} // verus!
