//! Routing a whole design: what goes into the router and what is made of its routes.

pub mod nets;
pub mod obstructions;
pub mod pins;
pub mod results;
pub mod setup;
pub mod slabs;
pub mod state_text;
pub mod tech;
pub mod usage;

use vstd::prelude::*;
use vstd::string::StringExecFns;

use self::nets::{
    all_costs, all_layer_edge_costs, costs_cover, kept_edge_costs, net_ids, net_range_edge_costs, range_costs, routed_ids, RouterNet,
};
use self::results::{grid_pins, grid_pins_of, guide_is_congested, is_route_of, known_ids, net_routes, NetRoute};
use self::usage::{caps_3d, holds_plane, layer_caps, plane_grids, PlaneGrids};
use crate::adjust::RouterEdges;
use crate::brk_rsmt::{Caps3D, RsmtNet};
use crate::findrouting::{completed_upto, finish_routes, guideless, local_guides_fit, merged_upto, GuideLayers, NoRouteGuides, RemainingNet, Routes};
use crate::text::{push_text, texts};

verus! {

/// What layer assignment reads of a net.
#[derive(Debug)]
pub struct NetLayers {
    /// The pins' layers, from 0.
    pub pin_layers: Vec<i16>,
    pub has_ndr: bool,
    pub is_clock: bool,
    pub layer_edge_cost: Vec<i8>,
}

/// What the router is run on.
#[derive(Debug)]
pub struct RunInputs {
    pub plane: PlaneGrids,
    pub caps: Caps3D,
    /// The nets that are routed, in order.
    pub net_ids: Vec<usize>,
    /// The nets by number, and the costs of their own layers.
    pub nets: Vec<RsmtNet>,
    pub range_costs: Vec<Vec<i8>>,
    pub layers: Vec<NetLayers>,
}

/// Whether a net's levels count from 1 and its costs cover its layers.
pub open spec fn net_fits(n: RouterNet, num_layers: int) -> bool {
    &&& 1 <= n.min_layer
    &&& 1 <= n.max_layer
    &&& costs_cover(n)
    &&& match n.layer_edge_cost {
        Some(v) => num_layers <= v@.len(),
        None => true,
    }
    &&& forall|k: int| 0 <= k < n.pins@.len() ==> i16::MIN <= (#[trigger] n.pins@[k]).2 - 1 <= i16::MAX
}

/// Whether the router's view of a net is that net.
pub open spec fn is_view_of(v: RsmtNet, n: RouterNet) -> bool {
    &&& v.pins_x@ == n.pins@.map_values(|p: (i32, i32, i32)| p.0)
    &&& v.pins_y@ == n.pins@.map_values(|p: (i32, i32, i32)| p.1)
    &&& v.edge_cost == n.edge_cost
    &&& v.min_layer == n.min_layer - 1
    &&& v.max_layer == n.max_layer - 1
}

/// Whether what layer assignment reads is of a net.
pub open spec fn is_layers_of(v: NetLayers, n: RouterNet, num_layers: int) -> bool {
    &&& v.pin_layers@ == n.pins@.map_values(|p: (i32, i32, i32)| (p.2 - 1) as i16)
    &&& v.has_ndr == n.has_ndr
    &&& v.is_clock == n.is_clock
    &&& v.layer_edge_cost@ == all_costs(n, num_layers)
}

fn view_net(n: &RouterNet, num_layers: usize) -> (r: (RsmtNet, NetLayers))
    requires
        net_fits(*n, num_layers as int),
    ensures
        is_view_of(r.0, *n),
        is_layers_of(r.1, *n, num_layers as int),
{
    let mut pins_x: Vec<i32> = Vec::new();
    let mut pins_y: Vec<i32> = Vec::new();
    let mut pin_layers: Vec<i16> = Vec::new();
    let mut k: usize = 0;
    while k < n.pins.len()
        invariant
            net_fits(*n, num_layers as int),
            k <= n.pins@.len(),
            pins_x@ == n.pins@.take(k as int).map_values(|p: (i32, i32, i32)| p.0),
            pins_y@ == n.pins@.take(k as int).map_values(|p: (i32, i32, i32)| p.1),
            pin_layers@ == n.pins@.take(k as int).map_values(|p: (i32, i32, i32)| (p.2 - 1) as i16),
        decreases n.pins@.len() - k,
    {
        let (x, y, l) = n.pins[k];
        assert(i16::MIN <= n.pins@[k as int].2 - 1 <= i16::MAX);
        pins_x.push(x);
        pins_y.push(y);
        pin_layers.push((l - 1) as i16);
        k += 1;
        assert(pins_x@ =~= n.pins@.take(k as int).map_values(|p: (i32, i32, i32)| p.0));
        assert(pins_y@ =~= n.pins@.take(k as int).map_values(|p: (i32, i32, i32)| p.1));
        assert(pin_layers@ =~= n.pins@.take(k as int).map_values(|p: (i32, i32, i32)| (p.2 - 1) as i16));
    }
    assert(n.pins@.take(k as int) =~= n.pins@);
    (
        RsmtNet { pins_x, pins_y, edge_cost: n.edge_cost, min_layer: (n.min_layer - 1) as usize, max_layer: (n.max_layer - 1) as usize },
        NetLayers { pin_layers, has_ndr: n.has_ndr, is_clock: n.is_clock, layer_edge_cost: all_layer_edge_costs(n, num_layers) },
    )
}

/// What the router is run on: the plane and the capacities as the setup left them, and the nets with levels
/// counted from 0. Local nets keep their numbers and are not routed.
pub fn prepare_run(e: &RouterEdges, nets: &Vec<RouterNet>) -> (r: RunInputs)
    requires
        e.wf(),
        forall|k: int| 0 <= k < nets@.len() ==> net_fits(#[trigger] nets@[k], e.num_layers as int),
    ensures
        holds_plane(r.plane, *e),
        r.caps.x_grid == e.x_grid,
        r.caps.layers@.len() == e.num_layers,
        forall|l: int| 0 <= l < e.num_layers ==> (#[trigger] r.caps.layers@[l]).h@ == layer_caps(e.h3@, l, e.x_grid as int, e.y_grid as int)
            && r.caps.layers@[l].v@ == layer_caps(e.v3@, l, e.x_grid as int, e.y_grid as int),
        r.net_ids@ == routed_ids(nets@, nets@.len() as int),
        r.nets@.len() == nets@.len(),
        r.range_costs@.len() == nets@.len(),
        r.layers@.len() == nets@.len(),
        forall|k: int| 0 <= k < nets@.len() ==> is_view_of(#[trigger] r.nets@[k], nets@[k]),
        forall|k: int| 0 <= k < nets@.len() ==> (#[trigger] r.range_costs@[k])@ == range_costs(nets@[k]),
        forall|k: int| 0 <= k < nets@.len() ==> is_layers_of(#[trigger] r.layers@[k], nets@[k], e.num_layers as int),
{
    let mut views: Vec<RsmtNet> = Vec::new();
    let mut costs: Vec<Vec<i8>> = Vec::new();
    let mut layers: Vec<NetLayers> = Vec::new();
    let num_layers: usize = e.num_layers as usize;
    let mut k: usize = 0;
    while k < nets.len()
        invariant
            e.wf(),
            num_layers == e.num_layers,
            forall|k: int| 0 <= k < nets@.len() ==> net_fits(#[trigger] nets@[k], e.num_layers as int),
            k <= nets@.len(),
            views@.len() == k,
            costs@.len() == k,
            layers@.len() == k,
            forall|j: int| 0 <= j < k ==> is_view_of(#[trigger] views@[j], nets@[j]),
            forall|j: int| 0 <= j < k ==> (#[trigger] costs@[j])@ == range_costs(nets@[j]),
            forall|j: int| 0 <= j < k ==> is_layers_of(#[trigger] layers@[j], nets@[j], e.num_layers as int),
        decreases nets@.len() - k,
    {
        assert(net_fits(nets@[k as int], e.num_layers as int));
        let (v, l) = view_net(&nets[k], num_layers);
        views.push(v);
        layers.push(l);
        costs.push(net_range_edge_costs(&nets[k]));
        k += 1;
    }
    RunInputs { plane: plane_grids(e), caps: caps_3d(e), net_ids: net_ids(nets), nets: views, range_costs: costs, layers }
}

/// What a net is completed and merged by.
pub open spec fn remaining_of(n: RouterNet, r: RemainingNet) -> bool {
    r.name@ == n.name@ && r.made && r.pins@ == grid_pins_of(n.net_pins@)
}

/// The nets as their routes are completed.
pub fn remaining_nets(nets: &Vec<RouterNet>) -> (out: Vec<RemainingNet>)
    ensures
        out@.len() == nets@.len(),
        forall|k: int| 0 <= k < nets@.len() ==> remaining_of(nets@[k], #[trigger] out@[k]),
{
    let mut out: Vec<RemainingNet> = Vec::new();
    let mut k: usize = 0;
    while k < nets.len()
        invariant
            k <= nets@.len(),
            out@.len() == k,
            forall|j: int| 0 <= j < k ==> remaining_of(nets@[j], #[trigger] out@[j]),
        decreases nets@.len() - k,
    {
        out.push(RemainingNet { name: String::from_str(nets[k].name.as_str()), made: true, pins: grid_pins(&nets[k]) });
        k += 1;
    }
    out
}

/// The nets of some numbers as their routes are completed.
pub fn rerouted_nets(nets: &Vec<RouterNet>, ids: &Vec<usize>) -> (out: Vec<RemainingNet>)
    requires
        forall|k: int| 0 <= k < ids@.len() ==> (#[trigger] ids@[k]) < nets@.len(),
    ensures
        out@.len() == ids@.len(),
        forall|k: int| 0 <= k < ids@.len() ==> remaining_of(nets@[ids@[k] as int], #[trigger] out@[k]),
{
    let mut out: Vec<RemainingNet> = Vec::new();
    let mut k: usize = 0;
    while k < ids.len()
        invariant
            k <= ids@.len(),
            forall|k: int| 0 <= k < ids@.len() ==> (#[trigger] ids@[k]) < nets@.len(),
            out@.len() == k,
            forall|j: int| 0 <= j < k ==> remaining_of(nets@[ids@[j] as int], #[trigger] out@[j]),
        decreases ids@.len() - k,
    {
        assert(ids@[k as int] < nets@.len());
        let n = &nets[ids[k]];
        out.push(RemainingNet { name: String::from_str(n.name.as_str()), made: true, pins: grid_pins(n) });
        k += 1;
    }
    out
}

/// Routing again left overflow, which is not allowed.
#[derive(Debug, Clone, Copy, PartialEq, Eq, Structural)]
pub struct OverflowLeft;

impl OverflowLeft {
    /// What is said of it.
    pub fn message(&self) -> (s: String)
        ensures
            s@ == "the incremental re-route left overflow: its congestion loop is not modelled"@,
    {
        String::from_str("the incremental re-route left overflow: its congestion loop is not modelled")
    }
}

/// The names of the nets that were routed again. Refused where overflow is left and not allowed; nothing is
/// asked where no net was routed.
pub fn update_dirty_routes_fast_route(nets: &Vec<RouterNet>, ids: &Vec<usize>, total_overflow: i32, allow_congestion: bool) -> (r: Result<Vec<String>, OverflowLeft>)
    requires
        forall|k: int| 0 <= k < ids@.len() ==> (#[trigger] ids@[k]) < nets@.len(),
    ensures
        r is Err <==> ids@.len() > 0 && total_overflow > 0 && !allow_congestion,
        r matches Ok(names) ==> texts(names@) == ids@.map_values(|id: usize| nets@[id as int].name@),
{
    let mut names: Vec<String> = Vec::new();
    if ids.len() > 0 && total_overflow > 0 && !allow_congestion {
        return Err(OverflowLeft);
    }
    let mut k: usize = 0;
    while k < ids.len()
        invariant
            k <= ids@.len(),
            forall|k: int| 0 <= k < ids@.len() ==> (#[trigger] ids@[k]) < nets@.len(),
            texts(names@) == ids@.take(k as int).map_values(|id: usize| nets@[id as int].name@),
        decreases ids@.len() - k,
    {
        assert(ids@[k as int] < nets@.len());
        push_text(&mut names, String::from_str(nets[ids[k]].name.as_str()));
        k += 1;
        assert(texts(names@) =~= ids@.take(k as int).map_values(|id: usize| nets@[id as int].name@));
    }
    assert(ids@.take(k as int) =~= ids@);
    Ok(names)
}

/// The levels that routes are completed and merged on.
#[derive(Debug, Clone, Copy, PartialEq, Eq, Structural)]
pub struct FinishLevels {
    pub min: i32,
    pub max: i32,
    pub block_min: i32,
    pub block_max: i32,
}

/// What a run leaves: the routes that guides are written from, whether they are congested, and the costs that
/// later commands read.
#[derive(Debug)]
pub struct RunResult {
    pub net_routes: Vec<NetRoute>,
    pub guide_is_congested: bool,
    pub layer_edge_cost: Vec<Vec<i8>>,
    pub edge_cost: Vec<i8>,
}

/// Makes the result of what the router gave: every net's route completed and merged, in the block's order. A
/// net whose rule was given up on the way counts 1 per edge from now on. Stops at the first net that cannot be
/// given guides.
pub fn finish_run(
    routes: &mut Routes, nets: &Vec<RouterNet>, remaining: &Vec<RemainingNet>, order: &Vec<String>, soft: &Vec<bool>, num_layers: usize, levels: FinishLevels, total_overflow: i32,
    allow_congestion: bool,
) -> (r: Result<RunResult, NoRouteGuides>)
    requires
        old(routes).wf(),
        soft@.len() == nets@.len(),
        forall|k: int| 0 <= k < nets@.len() ==> net_fits(#[trigger] nets@[k], num_layers as int),
        forall|i: int| 0 <= i < remaining@.len() ==> local_guides_fit(
            completed_upto(old(routes)@, remaining@, (GuideLayers { min: levels.min as int, max: levels.max as int, block_max: levels.block_max as int }), i),
            #[trigger] remaining@[i], levels.min as int, levels.max as int),
    ensures
        final(routes).wf(),
        ({
            let g = GuideLayers { min: levels.min as int, max: levels.max as int, block_max: levels.block_max as int };
            let m = old(routes)@;
            let all = completed_upto(m, remaining@, g, remaining@.len() as int);
            match r {
                Ok(t) => {
                    &&& forall|i: int| 0 <= i < remaining@.len() ==> !guideless(completed_upto(m, remaining@, g, i), #[trigger] remaining@[i])
                    &&& final(routes)@ == merged_upto(all, remaining@, levels.block_min as int, remaining@.len() as int)
                    &&& t.net_routes@.len() == known_ids(order@, nets@, order@.len() as int).len()
                    &&& forall|k: int| 0 <= k < t.net_routes@.len() ==> is_route_of(#[trigger] t.net_routes@[k], nets@[known_ids(order@, nets@, order@.len() as int)[k]], final(routes)@)
                    &&& t.guide_is_congested == (total_overflow > 0 && !allow_congestion)
                    &&& t.layer_edge_cost@.len() == nets@.len() && t.edge_cost@.len() == nets@.len()
                    &&& forall|k: int| 0 <= k < nets@.len() ==> (#[trigger] t.layer_edge_cost@[k])@ == (if soft@[k] { Seq::new(num_layers as nat, |l: int| 1i8) } else { all_costs(nets@[k], num_layers as int) })
                    &&& forall|k: int| 0 <= k < nets@.len() ==> #[trigger] t.edge_cost@[k] == (if soft@[k] { 1i8 } else { nets@[k].edge_cost })
                },
                Err(e) => exists|k: int| {
                    &&& 0 <= k < remaining@.len()
                    &&& guideless(completed_upto(m, remaining@, g, k), #[trigger] remaining@[k])
                    &&& forall|i: int| 0 <= i < k ==> !guideless(completed_upto(m, remaining@, g, i), #[trigger] remaining@[i])
                    &&& e.net@ == remaining@[k].name@
                },
            }
        }),
{
    match finish_routes(routes, remaining.as_slice(), levels.min, levels.max, levels.block_max, levels.block_min) {
        Ok(()) => {},
        Err(e) => {
            return Err(e);
        },
    }
    let mut layer_edge_cost: Vec<Vec<i8>> = Vec::new();
    let mut edge_cost: Vec<i8> = Vec::new();
    let mut k: usize = 0;
    while k < nets.len()
        invariant
            k <= nets@.len(),
            soft@.len() == nets@.len(),
            forall|k: int| 0 <= k < nets@.len() ==> net_fits(#[trigger] nets@[k], num_layers as int),
            layer_edge_cost@.len() == k,
            edge_cost@.len() == k,
            forall|j: int| 0 <= j < k ==> (#[trigger] layer_edge_cost@[j])@ == (if soft@[j] { Seq::new(num_layers as nat, |l: int| 1i8) } else { all_costs(nets@[j], num_layers as int) }),
            forall|j: int| 0 <= j < k ==> #[trigger] edge_cost@[j] == (if soft@[j] { 1i8 } else { nets@[j].edge_cost }),
        decreases nets@.len() - k,
    {
        assert(net_fits(nets@[k as int], num_layers as int));
        layer_edge_cost.push(kept_edge_costs(&nets[k], num_layers, soft[k]));
        edge_cost.push(if soft[k] { 1 } else { nets[k].edge_cost });
        k += 1;
    }
    Ok(RunResult { net_routes: net_routes(order, nets, routes), guide_is_congested: guide_is_congested(total_overflow, allow_congestion), layer_edge_cost, edge_cost })
}

} // verus!
