//! Filling in the via stacks at a net's nodes.
//!
//! Layer assignment leaves every edge a path through the grid, but where an edge meets a node the
//! path starts or ends on whatever layer the edge was assigned. The pins at that node may sit on
//! other layers, and so may the node's other edges. This pass prepends and appends the stack of vias
//! that joins them, and gives a zero-length edge between two nodes at one position a stack of its
//! own.
//!
//! Each node records the edge at its highest layer and, where no edge rises above its own layer, the
//! edge at its lowest; only that one edge gets the node's stack. A positive-length edge reads its
//! endpoints' aliases, a zero-length edge the endpoints themselves, resolved through the node's
//! `stack_alias` only when the node carries no layers at all.

use crate::lists::{lemma_sum_next, lemma_sum_none, sum_of};
use vstd::prelude::*;

use crate::checks3d::distance;
use crate::full3d::{falling, push_falling, push_rising, rising, Point3D, RouteType};

verus! {

/// What a node's `h_id` holds when no edge rises above the node's own layer.
pub const NO_EDGE: i32 = 1_000_000_000;

/// One pin of a net.
#[derive(Debug, Clone, Copy, PartialEq, Eq, Structural)]
pub struct ViaPin {
    pub x: i32,
    pub y: i32,
    pub layer: i32,
}

/// A tree node after layer assignment.
#[derive(Debug, Clone, Copy, PartialEq, Eq, Structural)]
pub struct ViaNode {
    pub x: i16,
    pub y: i16,
    pub bot_layer: i16,
    pub top_layer: i16,
    /// The edge at the node's highest layer, or [`NO_EDGE`].
    pub h_id: i32,
    /// The edge at the node's lowest layer, or [`NO_EDGE`].
    pub l_id: i32,
    pub stack_alias: usize,
}

/// A tree edge.
#[derive(Debug, PartialEq, Eq)]
pub struct ViaEdge {
    pub len: i32,
    pub n1: usize,
    pub n2: usize,
    /// The endpoints' aliases, meaningful only on a positive-length edge.
    pub n1a: usize,
    pub n2a: usize,
    pub route_type: RouteType,
    pub routelen: i32,
    pub grids: Vec<Point3D>,
}

/// One net's tree and pins.
#[derive(Debug, PartialEq, Eq)]
pub struct ViaNet {
    pub num_terminals: usize,
    pub nodes: Vec<ViaNode>,
    pub edges: Vec<ViaEdge>,
    pub pins: Vec<ViaPin>,
}

/// How many vias were added at pins and at Steiner nodes.
#[derive(Debug, Clone, Copy, PartialEq, Eq, Structural, Default)]
pub struct ViaCounts {
    pub pin_nodes: i32,
    pub steiner_nodes: i32,
}

/// Which node's stack an end of a positive-length edge took, and whether that node is a terminal.
#[derive(Debug, Clone, Copy, PartialEq, Eq, Structural)]
pub struct EndClaim {
    pub node: usize,
    pub terminal: bool,
}

/// What was decided for one edge.
#[derive(Debug, Clone, Copy, PartialEq, Eq)]
pub enum EdgeFill {
    /// A positive-length edge: which ends claimed a stack, and the point count it built.
    Positive { first: Option<EndClaim>, second: Option<EndClaim>, points: i32 },
    /// A zero-length edge whose resolved endpoints both carry no layers.
    ZeroSkipped { effective: (usize, usize) },
    /// A zero-length edge with the layer range computed, written only when the top is above the
    /// bottom.
    Zero { effective: (usize, usize), bottom: i16, top: i16 },
}

/// An edge with a length but no route.
#[derive(Debug, Clone, Copy, PartialEq, Eq, Structural)]
pub struct NoPreviousRouting {
    pub net: usize,
    pub edge: usize,
}

/// The layer range of the first `n` pins at a position; a pin's layer counts in 16 bits. With no pin
/// there the range is inverted, so that folding it into another changes nothing.
pub open spec fn pin_range(pins: Seq<ViaPin>, n: int, x: i16, y: i16) -> (i16, i16)
    decreases n,
{
    if n <= 0 {
        (i16::MAX, -1i16)
    } else {
        let (b, t) = pin_range(pins, n - 1, x, y);
        let p = pins[n - 1];
        let l = p.layer as i16;
        if p.x == x && p.y == y {
            (if l < b { l } else { b }, if l > t { l } else { t })
        } else {
            (b, t)
        }
    }
}

/// The layer range of the pins at a node's position, over every pin of the net.
pub fn get_via_stack_range(pins: &[ViaPin], node: &ViaNode) -> (r: (i16, i16))
    ensures
        r == pin_range(pins@, pins@.len() as int, node.x, node.y),
{
    let (x, y) = (node.x as i32, node.y as i32);
    let mut bot: i16 = i16::MAX;
    let mut top: i16 = -1;
    let mut i: usize = 0;
    while i < pins.len()
        invariant
            i <= pins@.len(),
            x == node.x,
            y == node.y,
            (bot, top) == pin_range(pins@, i as int, node.x, node.y),
        decreases pins@.len() - i,
    {
        let p = pins[i];
        if p.x == x && p.y == y {
            let l: i16 = #[verifier::truncate] (p.layer as i16);
            bot = bot.min(l);
            top = top.max(l);
        }
        i += 1;
    }
    (bot, top)
}

/// A layer range widened to take in the pins at a node.
pub open spec fn extended(pins: Seq<ViaPin>, node: ViaNode, bot: i16, top: i16) -> (i16, i16) {
    let (b, t) = pin_range(pins, pins.len() as int, node.x, node.y);
    (if b < bot { b } else { bot }, if t > top { t } else { top })
}

fn extend_layer_range(pins: &Vec<ViaPin>, node: &ViaNode, bot: i16, top: i16) -> (r: (i16, i16))
    ensures
        r == extended(pins@, *node, bot, top),
{
    let (pin_bot, pin_top) = get_via_stack_range(pins.as_slice(), node);
    (pin_bot.min(bot), pin_top.max(top))
}

/// Whether an edge carries a node's stack: it is the node's highest-layer edge, or the node is a
/// terminal above which no edge rises and the edge is its lowest-layer edge.
pub open spec fn claims(node: ViaNode, node_id: int, edge_id: int, num_terminals: int) -> bool {
    node.h_id == edge_id || (edge_id == node.l_id && node.h_id == NO_EDGE && node_id < num_terminals)
}

fn claims_stack(node: &ViaNode, node_id: usize, edge_id: usize, num_terminals: usize) -> (b: bool)
    requires
        edge_id <= i32::MAX,
    ensures
        b == claims(*node, node_id as int, edge_id as int, num_terminals as int),
{
    let e: i32 = edge_id as i32;
    node.h_id == e || (e == node.l_id && node.h_id == NO_EDGE && node_id < num_terminals)
}

/// What a positive-length edge is given: its points, and how many of them count as vias at pins and
/// at Steiner nodes.
pub struct Filled {
    pub points: Seq<Point3D>,
    pub pin_nodes: int,
    pub steiner_nodes: int,
}

/// The stack before a path that starts at `start`. At a terminal it rises from the bottom of the
/// node's and its pins' layers to the top and comes back down to one above the path's layer; only
/// the rise is counted. At a Steiner node it rises from the node's bottom.
pub open spec fn first_stack(net: ViaNet, edge_id: int) -> Filled {
    let e = net.edges@[edge_id];
    let node = net.nodes@[e.n1a as int];
    let start = e.grids@[0];
    let (x, y) = (start.x, start.y);
    if !claims(node, e.n1a as int, edge_id, net.num_terminals as int) {
        Filled { points: Seq::empty(), pin_nodes: 0, steiner_nodes: 0 }
    } else if e.n1a < net.num_terminals {
        let (b, t) = extended(net.pins@, node, node.bot_layer, node.top_layer);
        let up = rising(x, y, b as int, t as int);
        Filled { points: up + falling(x, y, t as int, start.layer as int), pin_nodes: up.len() as int, steiner_nodes: 0 }
    } else {
        let up = rising(x, y, node.bot_layer as int, start.layer as int);
        Filled { points: up, pin_nodes: 0, steiner_nodes: up.len() as int }
    }
}

/// The stack after a path that ends at `last`. At a terminal it falls from one below the path's layer
/// to one above the bottom, then rises from the bottom to the top, where the bottom is skipped if the
/// path already ends on it. At a Steiner node it falls from one below the node's top to its bottom,
/// counted only if the edge starts at a Steiner node too.
pub open spec fn second_stack(net: ViaNet, edge_id: int) -> Filled {
    let e = net.edges@[edge_id];
    let node = net.nodes@[e.n2a as int];
    let last = e.grids@[e.routelen as int];
    let (x, y) = (last.x, last.y);
    if !claims(node, e.n2a as int, edge_id, net.num_terminals as int) {
        Filled { points: Seq::empty(), pin_nodes: 0, steiner_nodes: 0 }
    } else if e.n2a < net.num_terminals {
        let (b, t) = extended(net.pins@, node, node.bot_layer, node.top_layer);
        let bottom = if b == last.layer { b + 1 } else { b as int };
        let up = rising(x, y, bottom, t + 1);
        Filled { points: falling(x, y, last.layer - 1, bottom) + up, pin_nodes: up.len() as int, steiner_nodes: 0 }
    } else {
        let down = falling(x, y, node.top_layer - 1, node.bot_layer - 1);
        Filled {
            points: down,
            pin_nodes: 0,
            steiner_nodes: if e.n1a >= net.num_terminals { down.len() as int } else { 0 },
        }
    }
}

/// A positive-length edge filled: the first stack, the path and the second stack.
pub open spec fn positive_fill(net: ViaNet, edge_id: int) -> Filled {
    let (a, b) = (first_stack(net, edge_id), second_stack(net, edge_id));
    let e = net.edges@[edge_id];
    Filled {
        points: a.points + e.grids@.take(e.routelen + 1) + b.points,
        pin_nodes: a.pin_nodes + b.pin_nodes,
        steiner_nodes: a.steiner_nodes + b.steiner_nodes,
    }
}

/// The claim on an end's stack.
pub open spec fn claim_of(net: ViaNet, edge_id: int, node: usize) -> Option<EndClaim> {
    if claims(net.nodes@[node as int], node as int, edge_id, net.num_terminals as int) {
        Some(EndClaim { node, terminal: node < net.num_terminals })
    } else {
        None
    }
}

/// Whether a positive-length edge can be filled: its nodes and points exist, and the result's length
/// is a machine integer.
pub open spec fn positive_fits(net: ViaNet, edge_id: int) -> bool {
    let e = net.edges@[edge_id];
    &&& e.n1a < net.nodes@.len()
    &&& e.n2a < net.nodes@.len()
    &&& e.routelen > 0 ==> e.routelen < e.grids@.len() && positive_fill(net, edge_id).points.len() <= i32::MAX
}

/// What filling makes of a positive-length edge.
pub open spec fn positive_filled(net: ViaNet, edge_id: int, new: ViaEdge) -> bool {
    let e = net.edges@[edge_id];
    let p = positive_fill(net, edge_id).points;
    &&& (new.len, new.n1, new.n2, new.n1a, new.n2a) == (e.len, e.n1, e.n2, e.n1a, e.n2a)
    &&& new.grids@ == p
    &&& new.route_type == RouteType::MazeRoute
    &&& new.routelen == p.len() - 1
}

/// Two nets that differ in one edge at most.
pub open spec fn same_but(a: ViaNet, b: ViaNet, edge_id: int) -> bool {
    &&& a.num_terminals == b.num_terminals
    &&& a.nodes == b.nodes
    &&& a.pins == b.pins
    &&& a.edges@.len() == b.edges@.len()
    &&& forall|j: int| 0 <= j < a.edges@.len() && j != edge_id ==> #[trigger] a.edges@[j] == b.edges@[j]
}

/// Builds a positive-length edge's points; `None` for an edge without steps.
fn positive_points(net: &ViaNet, edge_id: usize) -> (r: Option<(Vec<Point3D>, i32, i32)>)
    requires
        edge_id < net.edges@.len() <= i32::MAX,
        positive_fits(*net, edge_id as int),
    ensures
        r is None <==> net.edges@[edge_id as int].routelen <= 0,
        r matches Some(t) ==> {
            let f = positive_fill(*net, edge_id as int);
            t.0@ == f.points && t.1 == f.pin_nodes && t.2 == f.steiner_nodes
        },
{
    let terminals: usize = net.num_terminals;
    let edge = &net.edges[edge_id];
    if edge.routelen <= 0 {
        return None;
    }
    let (node1, node2) = (edge.n1a, edge.n2a);
    let steps: usize = edge.routelen as usize;
    let mut tmp: Vec<Point3D> = Vec::new();
    let (mut pin_nodes, mut steiner_nodes): (i32, i32) = (0, 0);
    if claims_stack(&net.nodes[node1], node1, edge_id, terminals) {
        let n = net.nodes[node1];
        let start = edge.grids[0];
        if node1 < terminals {
            let (bottom, top) = extend_layer_range(&net.pins, &n, n.bot_layer, n.top_layer);
            push_rising(&mut tmp, start.x, start.y, bottom as i32, top as i32);
            pin_nodes = tmp.len() as i32;
            push_falling(&mut tmp, start.x, start.y, top as i32, start.layer as i32);
        } else {
            push_rising(&mut tmp, start.x, start.y, n.bot_layer as i32, start.layer as i32);
            steiner_nodes = tmp.len() as i32;
        }
    }
    let ghost a = first_stack(*net, edge_id as int);
    assert(tmp@ =~= a.points);
    let total: usize = edge.grids.len();
    let mut j: usize = 0;
    while j <= steps
        invariant
            j <= steps + 1 <= total == edge.grids@.len(),
            tmp@ == a.points + edge.grids@.take(j as int),
        decreases steps + 1 - j,
    {
        tmp.push(edge.grids[j]);
        j += 1;
        assert(tmp@ =~= a.points + edge.grids@.take(j as int));
    }
    if claims_stack(&net.nodes[node2], node2, edge_id, terminals) {
        let n = net.nodes[node2];
        let last = edge.grids[steps];
        if node2 < terminals {
            let (b, top) = extend_layer_range(&net.pins, &n, n.bot_layer, n.top_layer);
            let bottom: i32 = if b == last.layer { b as i32 + 1 } else { b as i32 };
            push_falling(&mut tmp, last.x, last.y, last.layer as i32 - 1, bottom);
            push_rising(&mut tmp, last.x, last.y, bottom, top as i32 + 1);
            if bottom <= top as i32 {
                pin_nodes = pin_nodes + (top as i32 + 1 - bottom);
            }
        } else {
            push_falling(&mut tmp, last.x, last.y, n.top_layer as i32 - 1, n.bot_layer as i32 - 1);
            if node1 >= terminals && n.top_layer > n.bot_layer {
                steiner_nodes = steiner_nodes + (n.top_layer as i32 - n.bot_layer as i32);
            }
        }
    }
    assert(tmp@ =~= positive_fill(*net, edge_id as int).points);
    Some((tmp, pin_nodes, steiner_nodes))
}

/// A positive-length edge: the stack at the first end, the path, and the stack at the second end.
/// `None` for an edge without steps, which is left as it was.
fn fill_positive_edge(net: &mut ViaNet, edge_id: usize, counts: &mut ViaCounts) -> (r: Option<EdgeFill>)
    requires
        edge_id < old(net).edges@.len() <= i32::MAX,
        positive_fits(*old(net), edge_id as int),
        old(net).edges@[edge_id as int].routelen > 0 ==> {
            let f = positive_fill(*old(net), edge_id as int);
            0 <= old(counts).pin_nodes + f.pin_nodes <= i32::MAX && 0 <= old(counts).steiner_nodes + f.steiner_nodes <= i32::MAX
        },
    ensures
        r is None <==> old(net).edges@[edge_id as int].routelen <= 0,
        r is None ==> *final(net) == *old(net) && *final(counts) == *old(counts),
        r matches Some(fill) ==> {
            let f = positive_fill(*old(net), edge_id as int);
            let e = old(net).edges@[edge_id as int];
            &&& same_but(*final(net), *old(net), edge_id as int)
            &&& positive_filled(*old(net), edge_id as int, final(net).edges@[edge_id as int])
            &&& final(counts).pin_nodes == old(counts).pin_nodes + f.pin_nodes
            &&& final(counts).steiner_nodes == old(counts).steiner_nodes + f.steiner_nodes
            &&& fill == positive_decision(*old(net), edge_id as int)
        },
{
    let terminals: usize = net.num_terminals;
    match positive_points(net, edge_id) {
        None => None,
        Some((tmp, pins, steiners)) => {
            let (node1, node2) = (net.edges[edge_id].n1a, net.edges[edge_id].n2a);
            let first = if claims_stack(&net.nodes[node1], node1, edge_id, terminals) {
                Some(EndClaim { node: node1, terminal: node1 < terminals })
            } else {
                None
            };
            let second = if claims_stack(&net.nodes[node2], node2, edge_id, terminals) {
                Some(EndClaim { node: node2, terminal: node2 < terminals })
            } else {
                None
            };
            let points: i32 = tmp.len() as i32;
            let edge = &net.edges[edge_id];
            let new = ViaEdge {
                len: edge.len,
                n1: edge.n1,
                n2: edge.n2,
                n1a: node1,
                n2a: node2,
                route_type: RouteType::MazeRoute,
                routelen: points - 1,
                grids: tmp,
            };
            net.edges[edge_id] = new;
            counts.pin_nodes = counts.pin_nodes + pins;
            counts.steiner_nodes = counts.steiner_nodes + steiners;
            Some(EdgeFill::Positive { first, second, points })
        },
    }
}

/// What is decided for a positive-length edge with steps.
pub open spec fn positive_decision(net: ViaNet, edge_id: int) -> EdgeFill {
    let e = net.edges@[edge_id];
    EdgeFill::Positive {
        first: claim_of(net, edge_id, e.n1a),
        second: claim_of(net, edge_id, e.n2a),
        points: positive_fill(net, edge_id).points.len() as i32,
    }
}

/// Whether a node carries no layers: layer assignment never touched it.
pub open spec fn layerless(node: ViaNode, num_layers: i16) -> bool {
    node.bot_layer == num_layers && node.top_layer == -1
}

fn has_no_layers(node: &ViaNode, num_layers: i16) -> (b: bool)
    ensures
        b == layerless(*node, num_layers),
{
    node.bot_layer == num_layers && node.top_layer == -1
}

/// The node that stands for an endpoint: its alias where it carries no layers.
pub open spec fn resolved(net: ViaNet, n: usize, num_layers: i16) -> usize {
    if layerless(net.nodes@[n as int], num_layers) { net.nodes@[n as int].stack_alias } else { n }
}

/// The layers of a zero-length edge: from the lower of the two bottoms to the higher, widened by the
/// pins at each end that is a terminal.
pub open spec fn zero_range(net: ViaNet, a: usize, b: usize) -> (i16, i16) {
    let (na, nb) = (net.nodes@[a as int], net.nodes@[b as int]);
    let lo = if na.bot_layer < nb.bot_layer { na.bot_layer } else { nb.bot_layer };
    let hi = if na.bot_layer > nb.bot_layer { na.bot_layer } else { nb.bot_layer };
    let r1 = if a < net.num_terminals { extended(net.pins@, na, lo, hi) } else { (lo, hi) };
    if b < net.num_terminals { extended(net.pins@, nb, r1.0, r1.1) } else { r1 }
}

/// What is decided for a zero-length edge.
pub open spec fn zero_decision(net: ViaNet, edge_id: int, num_layers: i16) -> EdgeFill {
    let e = net.edges@[edge_id];
    let (a, b) = (resolved(net, e.n1, num_layers), resolved(net, e.n2, num_layers));
    if layerless(net.nodes@[a as int], num_layers) && layerless(net.nodes@[b as int], num_layers) {
        EdgeFill::ZeroSkipped { effective: (a, b) }
    } else {
        EdgeFill::Zero { effective: (a, b), bottom: zero_range(net, a, b).0, top: zero_range(net, a, b).1 }
    }
}

/// Whether a zero-length edge's nodes exist.
pub open spec fn zero_fits(net: ViaNet, edge_id: int, num_layers: i16) -> bool {
    let e = net.edges@[edge_id];
    &&& e.n1 < net.nodes@.len()
    &&& e.n2 < net.nodes@.len()
    &&& resolved(net, e.n1, num_layers) < net.nodes@.len()
    &&& resolved(net, e.n2, num_layers) < net.nodes@.len()
}

/// What filling makes of a zero-length edge: a stack at its first endpoint's position where there
/// are layers to join, and nothing otherwise.
pub open spec fn zero_filled(net: ViaNet, edge_id: int, num_layers: i16, new: ViaEdge) -> bool {
    let e = net.edges@[edge_id];
    match zero_decision(net, edge_id, num_layers) {
        EdgeFill::Zero { effective: _, bottom, top } => if top <= bottom {
            new == e
        } else {
            let n = net.nodes@[e.n1 as int];
            &&& (new.len, new.n1, new.n2, new.n1a, new.n2a) == (e.len, e.n1, e.n2, e.n1a, e.n2a)
            &&& new.grids@ == rising(n.x, n.y, bottom as int, top + 1)
            &&& new.route_type == RouteType::MazeRoute
            &&& new.routelen == top - bottom
        },
        _ => new == e,
    }
}

/// A zero-length edge: a single stack at the shared position, or nothing.
fn fill_zero_length_edge(net: &mut ViaNet, edge_id: usize, num_layers: i16) -> (r: EdgeFill)
    requires
        edge_id < old(net).edges@.len(),
        zero_fits(*old(net), edge_id as int, num_layers),
    ensures
        r == zero_decision(*old(net), edge_id as int, num_layers),
        same_but(*final(net), *old(net), edge_id as int),
        zero_filled(*old(net), edge_id as int, num_layers, final(net).edges@[edge_id as int]),
{
    let terminals: usize = net.num_terminals;
    let (node1, node2) = (net.edges[edge_id].n1, net.edges[edge_id].n2);
    let eff1: usize = if has_no_layers(&net.nodes[node1], num_layers) { net.nodes[node1].stack_alias } else { node1 };
    let eff2: usize = if has_no_layers(&net.nodes[node2], num_layers) { net.nodes[node2].stack_alias } else { node2 };
    if has_no_layers(&net.nodes[eff1], num_layers) && has_no_layers(&net.nodes[eff2], num_layers) {
        return EdgeFill::ZeroSkipped { effective: (eff1, eff2) };
    }
    let (a, b) = (net.nodes[eff1], net.nodes[eff2]);
    let mut bottom: i16 = a.bot_layer.min(b.bot_layer);
    let mut top: i16 = a.bot_layer.max(b.bot_layer);
    if eff1 < terminals {
        let r = extend_layer_range(&net.pins, &a, bottom, top);
        bottom = r.0;
        top = r.1;
    }
    if eff2 < terminals {
        let r = extend_layer_range(&net.pins, &b, bottom, top);
        bottom = r.0;
        top = r.1;
    }
    let fill = EdgeFill::Zero { effective: (eff1, eff2), bottom, top };
    if top <= bottom {
        return fill;
    }
    let (x, y) = (net.nodes[node1].x, net.nodes[node1].y);
    let mut grids: Vec<Point3D> = Vec::new();
    push_rising(&mut grids, x, y, bottom as i32, top as i32 + 1);
    assert(grids@ =~= rising(x, y, bottom as int, top + 1));
    let edge = &net.edges[edge_id];
    let new = ViaEdge {
        len: edge.len,
        n1: edge.n1,
        n2: edge.n2,
        n1a: edge.n1a,
        n2a: edge.n2a,
        route_type: RouteType::MazeRoute,
        routelen: top as i32 - bottom as i32,
        grids,
    };
    net.edges[edge_id] = new;
    fill
}

/// Whether an edge has a length but no route.
pub open spec fn unrouted(e: ViaEdge) -> bool {
    e.len > 0 && e.routelen <= 0
}

/// Whether an edge can be filled.
pub open spec fn edge_fits(net: ViaNet, edge_id: int, num_layers: i16) -> bool {
    if net.edges@[edge_id].len > 0 { positive_fits(net, edge_id) } else { zero_fits(net, edge_id, num_layers) }
}

/// What is decided for an edge.
pub open spec fn edge_decision(net: ViaNet, edge_id: int, num_layers: i16) -> EdgeFill {
    if net.edges@[edge_id].len > 0 { positive_decision(net, edge_id) } else { zero_decision(net, edge_id, num_layers) }
}

/// What filling makes of an edge.
pub open spec fn edge_filled(net: ViaNet, edge_id: int, num_layers: i16, new: ViaEdge) -> bool {
    if net.edges@[edge_id].len > 0 {
        positive_filled(net, edge_id, new)
    } else {
        zero_filled(net, edge_id, num_layers, new)
    }
}

/// The vias counted at pins, or at Steiner nodes, over the first `n` edges of a net.
pub open spec fn net_count(net: ViaNet, pins: bool, n: int) -> int
    decreases n,
{
    if n <= 0 {
        0
    } else {
        let f = positive_fill(net, n - 1);
        net_count(net, pins, n - 1) + (if net.edges@[n - 1].len <= 0 || net.edges@[n - 1].routelen <= 0 {
            0
        } else if pins {
            f.pin_nodes
        } else {
            f.steiner_nodes
        })
    }
}

/// The vias counted over the first `n` nets.
pub open spec fn nets_count(nets: Seq<ViaNet>, pins: bool, n: int) -> int
    decreases n,
{
    if n <= 0 { 0 } else { nets_count(nets, pins, n - 1) + net_count(nets[n - 1], pins, nets[n - 1].edges@.len() as int) }
}

proof fn lemma_fill_nonneg(net: ViaNet, edge_id: int)
    ensures
        positive_fill(net, edge_id).pin_nodes >= 0,
        positive_fill(net, edge_id).steiner_nodes >= 0,
{
}

proof fn lemma_net_count(net: ViaNet, pins: bool, a: int, b: int)
    requires
        0 <= a <= b,
    ensures
        0 <= net_count(net, pins, a) <= net_count(net, pins, b),
    decreases b, a,
{
    if a > 0 {
        lemma_net_count(net, pins, 0, a - 1);
        lemma_fill_nonneg(net, a - 1);
    }
    if a < b {
        lemma_net_count(net, pins, a, b - 1);
        lemma_fill_nonneg(net, b - 1);
    }
}

proof fn lemma_nets_count(nets: Seq<ViaNet>, pins: bool, a: int, b: int)
    requires
        0 <= a <= b,
    ensures
        0 <= nets_count(nets, pins, a) <= nets_count(nets, pins, b),
    decreases b, a,
{
    if a > 0 {
        lemma_nets_count(nets, pins, 0, a - 1);
        lemma_net_count(nets[a - 1], pins, 0, nets[a - 1].edges@.len() as int);
    }
    if a < b {
        lemma_nets_count(nets, pins, a, b - 1);
        lemma_net_count(nets[b - 1], pins, 0, nets[b - 1].edges@.len() as int);
    }
}

/// A net whose first `n` edges are filled and whose other edges are as they were.
pub open spec fn net_filled(new: ViaNet, net: ViaNet, num_layers: i16, n: int) -> bool {
    &&& new.num_terminals == net.num_terminals
    &&& new.nodes == net.nodes
    &&& new.pins == net.pins
    &&& new.edges@.len() == net.edges@.len()
    &&& forall|j: int| 0 <= j < n ==> edge_filled(net, j, num_layers, #[trigger] new.edges@[j])
    &&& forall|j: int| n <= j < net.edges@.len() ==> #[trigger] new.edges@[j] == net.edges@[j]
}

/// The decisions for the first `n` edges of a net.
pub open spec fn decisions(net: ViaNet, num_layers: i16, n: int) -> Seq<EdgeFill> {
    Seq::new(n as nat, |j: int| edge_decision(net, j, num_layers))
}

/// Fills the first `n` edges, or up to the first edge with a length but no route.
fn fill_net(net: &mut ViaNet, num_layers: i16, counts: &mut ViaCounts) -> (r: Result<Vec<EdgeFill>, usize>)
    requires
        old(net).edges@.len() <= i32::MAX,
        forall|j: int| 0 <= j < old(net).edges@.len() ==> #[trigger] edge_fits(*old(net), j, num_layers),
        old(counts).pin_nodes >= 0,
        old(counts).steiner_nodes >= 0,
        old(counts).pin_nodes + net_count(*old(net), true, old(net).edges@.len() as int) <= i32::MAX,
        old(counts).steiner_nodes + net_count(*old(net), false, old(net).edges@.len() as int) <= i32::MAX,
    ensures
        match r {
            Ok(d) => {
                let n = old(net).edges@.len() as int;
                &&& net_filled(*final(net), *old(net), num_layers, n)
                &&& d@ == decisions(*old(net), num_layers, n)
                &&& forall|j: int| 0 <= j < n ==> !unrouted(#[trigger] old(net).edges@[j])
                &&& final(counts).pin_nodes == old(counts).pin_nodes + net_count(*old(net), true, n)
                &&& final(counts).steiner_nodes == old(counts).steiner_nodes + net_count(*old(net), false, n)
            },
            Err(k) => {
                &&& k < old(net).edges@.len()
                &&& unrouted(old(net).edges@[k as int])
                &&& forall|j: int| 0 <= j < k ==> !unrouted(#[trigger] old(net).edges@[j])
                &&& net_filled(*final(net), *old(net), num_layers, k as int)
            },
        },
{
    let ghost (v, c) = (*net, *counts);
    let mut out: Vec<EdgeFill> = Vec::new();
    let n: usize = net.edges.len();
    let mut j: usize = 0;
    while j < n
        invariant
            j <= n == v.edges@.len() <= i32::MAX,
            v == *old(net),
            c == *old(counts),
            forall|j: int| 0 <= j < v.edges@.len() ==> #[trigger] edge_fits(v, j, num_layers),
            c.pin_nodes >= 0,
            c.steiner_nodes >= 0,
            c.pin_nodes + net_count(v, true, n as int) <= i32::MAX,
            c.steiner_nodes + net_count(v, false, n as int) <= i32::MAX,
            net_filled(*net, v, num_layers, j as int),
            out@ == decisions(v, num_layers, j as int),
            forall|i: int| 0 <= i < j ==> !unrouted(#[trigger] v.edges@[i]),
            counts.pin_nodes == c.pin_nodes + net_count(v, true, j as int),
            counts.steiner_nodes == c.steiner_nodes + net_count(v, false, j as int),
        decreases n - j,
    {
        let ghost cur = *net;
        proof {
            assert(edge_fits(v, j as int, num_layers));
            assert(cur.edges@[j as int] == v.edges@[j as int]);
            assert(positive_fill(cur, j as int) == positive_fill(v, j as int));
            lemma_net_count(v, true, j as int, j + 1);
            lemma_net_count(v, true, j + 1, n as int);
            lemma_net_count(v, false, j as int, j + 1);
            lemma_net_count(v, false, j + 1, n as int);
            lemma_fill_nonneg(v, j as int);
            lemma_net_count(v, true, 0, j as int);
            lemma_net_count(v, false, 0, j as int);
        }
        let fill = if net.edges[j].len > 0 {
            match fill_positive_edge(net, j, counts) {
                Some(f) => f,
                None => {
                    return Err(j);
                },
            }
        } else {
            fill_zero_length_edge(net, j, num_layers)
        };
        out.push(fill);
        proof {
            assert(fill == edge_decision(v, j as int, num_layers));
            assert(out@ =~= decisions(v, num_layers, j + 1));
            assert forall|i: int| 0 <= i < j + 1 implies edge_filled(v, i, num_layers, #[trigger] net.edges@[i]) by {
                if i < j {
                    assert(net.edges@[i] == cur.edges@[i]);
                }
            }
        }
        j += 1;
    }
    Ok(out)
}

/// Whether a net precedes the one where filling stopped.
pub open spec fn nets_filled(new: Seq<ViaNet>, nets: Seq<ViaNet>, num_layers: i16, n: int) -> bool {
    &&& new.len() == nets.len()
    &&& forall|i: int| 0 <= i < n ==> net_filled(#[trigger] new[i], nets[i], num_layers, nets[i].edges@.len() as int)
}

/// Fills every net's via stacks: nets in order, edges in order, a positive length to one arm and a
/// zero or negative length to the other.
///
/// Returns the counters and, per net, what was decided for each edge. At an edge with a length but
/// no route it stops, and the edges already processed stay rewritten.
pub fn fill_via(nets: &mut Vec<ViaNet>, num_layers: i16) -> (r: Result<(ViaCounts, Vec<Vec<EdgeFill>>), NoPreviousRouting>)
    requires
        forall|i: int| 0 <= i < old(nets)@.len() ==> (#[trigger] old(nets)@[i]).edges@.len() <= i32::MAX,
        forall|i: int, j: int|
            0 <= i < old(nets)@.len() && 0 <= j < old(nets)@[i].edges@.len() ==> #[trigger] edge_fits(
                old(nets)@[i], j, num_layers),
        nets_count(old(nets)@, true, old(nets)@.len() as int) <= i32::MAX,
        nets_count(old(nets)@, false, old(nets)@.len() as int) <= i32::MAX,
    ensures
        match r {
            Ok((counts, decided)) => {
                let n = old(nets)@.len() as int;
                &&& nets_filled(final(nets)@, old(nets)@, num_layers, n)
                &&& forall|i: int, j: int| 0 <= i < n && 0 <= j < old(nets)@[i].edges@.len() ==> !unrouted(
                    #[trigger] old(nets)@[i].edges@[j])
                &&& counts.pin_nodes == nets_count(old(nets)@, true, n)
                &&& counts.steiner_nodes == nets_count(old(nets)@, false, n)
                &&& decided@.len() == n
                &&& forall|i: int| 0 <= i < n ==> (#[trigger] decided@[i])@ == decisions(
                    old(nets)@[i], num_layers, old(nets)@[i].edges@.len() as int)
            },
            Err(e) => {
                &&& e.net < old(nets)@.len()
                &&& e.edge < old(nets)@[e.net as int].edges@.len()
                &&& unrouted(old(nets)@[e.net as int].edges@[e.edge as int])
                &&& forall|j: int| 0 <= j < e.edge ==> !unrouted(#[trigger] old(nets)@[e.net as int].edges@[j])
                &&& forall|i: int, j: int| 0 <= i < e.net && 0 <= j < old(nets)@[i].edges@.len() ==> !unrouted(
                    #[trigger] old(nets)@[i].edges@[j])
                &&& nets_filled(final(nets)@, old(nets)@, num_layers, e.net as int)
                &&& net_filled(final(nets)@[e.net as int], old(nets)@[e.net as int], num_layers, e.edge as int)
                &&& forall|i: int| e.net < i < old(nets)@.len() ==> #[trigger] final(nets)@[i] == old(nets)@[i]
            },
        },
{
    let ghost v = nets@;
    let n: usize = nets.len();
    let mut counts = ViaCounts { pin_nodes: 0, steiner_nodes: 0 };
    let mut decided: Vec<Vec<EdgeFill>> = Vec::new();
    let mut i: usize = 0;
    while i < n
        invariant
            i <= n == v.len(),
            v == old(nets)@,
            forall|i: int| 0 <= i < v.len() ==> (#[trigger] v[i]).edges@.len() <= i32::MAX,
            forall|i: int, j: int| 0 <= i < v.len() && 0 <= j < v[i].edges@.len() ==> #[trigger] edge_fits(v[i], j, num_layers),
            nets_count(v, true, n as int) <= i32::MAX,
            nets_count(v, false, n as int) <= i32::MAX,
            nets_filled(nets@, v, num_layers, i as int),
            forall|a: int| i <= a < v.len() ==> #[trigger] nets@[a] == v[a],
            forall|a: int, j: int| 0 <= a < i && 0 <= j < v[a].edges@.len() ==> !unrouted(#[trigger] v[a].edges@[j]),
            counts.pin_nodes == nets_count(v, true, i as int),
            counts.steiner_nodes == nets_count(v, false, i as int),
            decided@.len() == i,
            forall|a: int| 0 <= a < i ==> (#[trigger] decided@[a])@ == decisions(v[a], num_layers, v[a].edges@.len() as int),
        decreases n - i,
    {
        let ghost before = nets@;
        proof {
            lemma_nets_count(v, true, 0, i as int);
            lemma_nets_count(v, false, 0, i as int);
            lemma_nets_count(v, true, i + 1, n as int);
            lemma_nets_count(v, false, i + 1, n as int);
            assert(nets@[i as int] == v[i as int]);
        }
        let r = fill_net(&mut nets[i], num_layers, &mut counts);
        assert(forall|a: int| 0 <= a < v.len() && a != i ==> #[trigger] nets@[a] == before[a]);
        match r {
            Ok(d) => decided.push(d),
            Err(k) => {
                return Err(NoPreviousRouting { net: i, edge: k });
            },
        }
        i += 1;
    }
    Ok((counts, decided))
}

/// The nodes filled in all are the sum over the nets.
pub proof fn the_filled_nodes_are_those_of_all_nets(nets: Seq<ViaNet>, pins: bool, n: int)
    requires
        0 <= n,
    ensures
        nets_count(nets, pins, n) == sum_of(
            n,
            |k: int| net_count(nets[k], pins, nets[k].edges@.len() as int),
        ),
    decreases n,
{
    let f = |k: int| net_count(nets[k], pins, nets[k].edges@.len() as int);
    if n > 0 {
        the_filled_nodes_are_those_of_all_nets(nets, pins, n - 1);
        lemma_sum_next(n - 1, f);
    } else {
        lemma_sum_none(f);
    }
}

/// The nodes filled in a net are those at the ends of its edges that have a length and a route.
pub proof fn the_filled_nodes_of_a_net_are_those_of_its_routed_edges(net: ViaNet, pins: bool, n: int)
    requires
        0 <= n,
    ensures
        net_count(net, pins, n) == sum_of(
            n,
            |k: int| if net.edges@[k].len > 0 && net.edges@[k].routelen > 0 { if pins { positive_fill(net, k).pin_nodes as int } else { positive_fill(net, k).steiner_nodes as int } } else { 0 },
        ),
    decreases n,
{
    let f = |k: int| if net.edges@[k].len > 0 && net.edges@[k].routelen > 0 { if pins { positive_fill(net, k).pin_nodes as int } else { positive_fill(net, k).steiner_nodes as int } } else { 0 };
    if n > 0 {
        the_filled_nodes_of_a_net_are_those_of_its_routed_edges(net, pins, n - 1);
        lemma_sum_next(n - 1, f);
    } else {
        lemma_sum_none(f);
    }
}

/// Whether a pin stands at a position.
pub open spec fn stands_at(p: ViaPin, x: i16, y: i16) -> bool {
    p.x == x && p.y == y
}

/// The layers of a position reach over every pin that stands there, and no further: the lowest and the
/// highest are those of pins, where there is one on a layer from zero on.
pub proof fn a_range_is_that_of_the_pins_there(pins: Seq<ViaPin>, n: int, x: i16, y: i16)
    requires
        0 <= n <= pins.len(),
        forall|i: int| 0 <= i < n ==> 0 <= (#[trigger] pins[i]).layer < i16::MAX,
    ensures
        forall|i: int|
            0 <= i < n && stands_at(#[trigger] pins[i], x, y) ==> pin_range(pins, n, x, y).0 <= pins[i].layer <= pin_range(pins, n, x, y).1,
        (exists|i: int| 0 <= i < n && stands_at(#[trigger] pins[i], x, y)) ==> {
            &&& exists|i: int| 0 <= i < n && stands_at(#[trigger] pins[i], x, y) && pins[i].layer == pin_range(pins, n, x, y).0
            &&& exists|i: int| 0 <= i < n && stands_at(#[trigger] pins[i], x, y) && pins[i].layer == pin_range(pins, n, x, y).1
        },
        (forall|i: int| 0 <= i < n ==> !stands_at(#[trigger] pins[i], x, y)) ==> pin_range(pins, n, x, y) == (i16::MAX, -1i16),
    decreases n,
{
    if n > 0 {
        a_range_is_that_of_the_pins_there(pins, n - 1, x, y);
        let (b, t) = pin_range(pins, n - 1, x, y);
        let r = pin_range(pins, n, x, y);
        let p = pins[n - 1];
        if stands_at(p, x, y) {
            if exists|i: int| 0 <= i < n - 1 && stands_at(#[trigger] pins[i], x, y) {
                let i = choose|i: int| 0 <= i < n - 1 && stands_at(#[trigger] pins[i], x, y) && pins[i].layer == b;
                let j = choose|i: int| 0 <= i < n - 1 && stands_at(#[trigger] pins[i], x, y) && pins[i].layer == t;
                assert(stands_at(pins[i], x, y) && stands_at(pins[j], x, y));
            }
            assert(stands_at(pins[n - 1], x, y));
        } else if exists|i: int| 0 <= i < n && stands_at(#[trigger] pins[i], x, y) {
            let k = choose|i: int| 0 <= i < n && stands_at(#[trigger] pins[i], x, y);
            assert(k < n - 1);
            let i = choose|i: int| 0 <= i < n - 1 && stands_at(#[trigger] pins[i], x, y) && pins[i].layer == b;
            let j = choose|i: int| 0 <= i < n - 1 && stands_at(#[trigger] pins[i], x, y) && pins[i].layer == t;
            assert(stands_at(pins[i], x, y) && stands_at(pins[j], x, y));
        }
    }
}

/// Whether every step of a path moves by one, across, along or up and down.
pub open spec fn moves_by_one(p: Seq<Point3D>) -> bool {
    forall|i: int| 0 <= i < p.len() - 1 ==> distance(#[trigger] p[i], p[i + 1]) == 1
}

/// Whether a path stands on a layer at a position.
pub open spec fn stands_on(p: Seq<Point3D>, x: i16, y: i16, layer: int) -> bool {
    exists|i: int| 0 <= i < p.len() && (#[trigger] p[i]).x == x && p[i].y == y && p[i].layer == layer
}

/// Whether an end of an edge at a node fits the node's layers: at a terminal the end lies among them, at
/// a Steiner node it lies on the highest.
pub open spec fn meets_node(net: ViaNet, node: usize, end: Point3D) -> bool {
    let n = net.nodes@[node as int];
    &&& 0 <= n.bot_layer <= end.layer <= n.top_layer < i16::MAX
    &&& node >= net.num_terminals ==> end.layer == n.top_layer
}

/// The layers that a node's stack joins: those of the node and, at a terminal, of the pins there.
pub open spec fn is_joined_layer(net: ViaNet, node: usize, layer: int) -> bool {
    let n = net.nodes@[node as int];
    let (b, t) = pin_range(net.pins@, net.pins@.len() as int, n.x, n.y);
    ||| n.bot_layer <= layer <= n.top_layer
    ||| node < net.num_terminals && b <= t && (b <= layer <= n.bot_layer || n.top_layer <= layer <= t)
}

proof fn lemma_pins_layers(pins: Seq<ViaPin>, n: int, x: i16, y: i16)
    requires
        0 <= n <= pins.len(),
        forall|i: int| 0 <= i < pins.len() ==> 0 <= (#[trigger] pins[i]).layer < i16::MAX,
    ensures
        pin_range(pins, n, x, y).0 >= 0,
        pin_range(pins, n, x, y).1 < i16::MAX,
        pin_range(pins, n, x, y).0 <= pin_range(pins, n, x, y).1 || pin_range(pins, n, x, y) == (i16::MAX, -1i16),
    decreases n,
{
    if n > 0 {
        lemma_pins_layers(pins, n - 1, x, y);
        assert(0 <= pins[n - 1].layer < i16::MAX);
    }
}

/// The stack before a path leads to it step by step and stands on every layer that it joins.
proof fn lemma_first_stack(net: ViaNet, edge_id: int)
    requires
        0 <= edge_id < net.edges@.len(),
        claims(net.nodes@[net.edges@[edge_id].n1a as int], net.edges@[edge_id].n1a as int, edge_id, net.num_terminals as int),
        meets_node(net, net.edges@[edge_id].n1a, net.edges@[edge_id].grids@[0]),
        forall|i: int| 0 <= i < net.pins@.len() ==> 0 <= (#[trigger] net.pins@[i]).layer < i16::MAX,
    ensures
        moves_by_one(first_stack(net, edge_id).points.push(net.edges@[edge_id].grids@[0])),
        forall|layer: int|
            #[trigger] is_joined_layer(net, net.edges@[edge_id].n1a, layer) ==> stands_on(
                first_stack(net, edge_id).points.push(net.edges@[edge_id].grids@[0]),
                net.edges@[edge_id].grids@[0].x,
                net.edges@[edge_id].grids@[0].y,
                layer,
            ),
{
    let e = net.edges@[edge_id];
    let node = net.nodes@[e.n1a as int];
    let start = e.grids@[0];
    let s = first_stack(net, edge_id).points;
    let p = s.push(start);
    lemma_pins_layers(net.pins@, net.pins@.len() as int, node.x, node.y);
    if e.n1a < net.num_terminals {
        let (b, t) = extended(net.pins@, node, node.bot_layer, node.top_layer);
        assert(s.len() == (t - b) + (t - start.layer));
        assert forall|i: int| 0 <= i < p.len() - 1 implies distance(#[trigger] p[i], p[i + 1]) == 1 by {
            if i < t - b {
                assert(p[i].layer == b + i);
            } else {
                assert(p[i].layer == t - (i - (t - b)));
            }
            if i + 1 < t - b {
                assert(p[i + 1].layer == b + i + 1);
            } else if i + 1 < s.len() {
                assert(p[i + 1].layer == t - (i + 1 - (t - b)));
            } else {
                assert(p[i + 1] == start);
            }
        }
        assert forall|layer: int| #[trigger] is_joined_layer(net, e.n1a, layer) implies stands_on(p, start.x, start.y, layer) by {
            assert(b <= layer <= t);
            if layer < t {
                assert(p[layer - b].layer == layer);
                assert(p[layer - b].x == start.x && p[layer - b].y == start.y);
            } else {
                assert(p[t - b].layer == layer);
                assert(p[t - b].x == start.x && p[t - b].y == start.y);
            }
        }
    } else {
        let b = node.bot_layer;
        assert forall|i: int| 0 <= i < p.len() - 1 implies distance(#[trigger] p[i], p[i + 1]) == 1 by {
            assert(p[i].layer == b + i);
            if i + 1 < s.len() {
                assert(p[i + 1].layer == b + i + 1);
            } else {
                assert(p[i + 1] == start);
            }
        }
        assert forall|layer: int| #[trigger] is_joined_layer(net, e.n1a, layer) implies stands_on(p, start.x, start.y, layer) by {
            assert(p[layer - b].layer == layer);
            assert(p[layer - b].x == start.x && p[layer - b].y == start.y);
        }
    }
}

/// The stack after a path leads on from it step by step and stands on every layer that it joins.
proof fn lemma_second_stack(net: ViaNet, edge_id: int)
    requires
        0 <= edge_id < net.edges@.len(),
        claims(net.nodes@[net.edges@[edge_id].n2a as int], net.edges@[edge_id].n2a as int, edge_id, net.num_terminals as int),
        meets_node(net, net.edges@[edge_id].n2a, net.edges@[edge_id].grids@[net.edges@[edge_id].routelen as int]),
        forall|i: int| 0 <= i < net.pins@.len() ==> 0 <= (#[trigger] net.pins@[i]).layer < i16::MAX,
    ensures
        moves_by_one(seq![net.edges@[edge_id].grids@[net.edges@[edge_id].routelen as int]] + second_stack(net, edge_id).points),
        forall|layer: int|
            #[trigger] is_joined_layer(net, net.edges@[edge_id].n2a, layer) ==> stands_on(
                seq![net.edges@[edge_id].grids@[net.edges@[edge_id].routelen as int]] + second_stack(net, edge_id).points,
                net.edges@[edge_id].grids@[net.edges@[edge_id].routelen as int].x,
                net.edges@[edge_id].grids@[net.edges@[edge_id].routelen as int].y,
                layer,
            ),
{
    let e = net.edges@[edge_id];
    let node = net.nodes@[e.n2a as int];
    let last = e.grids@[e.routelen as int];
    let s = second_stack(net, edge_id).points;
    let p = seq![last] + s;
    lemma_pins_layers(net.pins@, net.pins@.len() as int, node.x, node.y);
    if e.n2a < net.num_terminals {
        let (b, t) = extended(net.pins@, node, node.bot_layer, node.top_layer);
        let bottom = if b == last.layer { b + 1 } else { b as int };
        let fall = if last.layer - 1 > bottom { last.layer - 1 - bottom } else { 0 };
        assert forall|i: int| 0 <= i < p.len() implies (#[trigger] p[i]).x == last.x && p[i].y == last.y && p[i].layer == (if i <= fall {
            last.layer - i
        } else {
            bottom + (i - fall - 1)
        }) by {
            if i > 0 {
                assert(p[i] == s[i - 1]);
            }
        }
        assert forall|i: int| 0 <= i < p.len() - 1 implies distance(#[trigger] p[i], p[i + 1]) == 1 by {
            assert(p[i + 1].x == last.x);
        }
        assert forall|layer: int| #[trigger] is_joined_layer(net, e.n2a, layer) implies stands_on(p, last.x, last.y, layer) by {
            assert(b <= layer <= t);
            let k = if layer < bottom { 0 } else { fall + 1 + (layer - bottom) };
            assert(p[k].layer == layer);
        }
    } else {
        assert forall|i: int| 0 <= i < p.len() implies (#[trigger] p[i]).x == last.x && p[i].y == last.y && p[i].layer == last.layer - i by {
            if i > 0 {
                assert(p[i] == s[i - 1]);
            }
        }
        assert forall|i: int| 0 <= i < p.len() - 1 implies distance(#[trigger] p[i], p[i + 1]) == 1 by {
            assert(p[i + 1].x == last.x);
        }
        assert forall|layer: int| #[trigger] is_joined_layer(net, e.n2a, layer) implies stands_on(p, last.x, last.y, layer) by {
            assert(p[last.layer - layer].layer == layer);
        }
    }
}

/// A filled edge is one path: it holds the edge's own, every step of it moves by one as the edge's do,
/// and where the edge carries a node's stack it stands at that end on every layer of the node and, at a
/// terminal, on every layer from there to the pins.
pub proof fn a_filled_edge_is_one_path_through_its_stacks(net: ViaNet, edge_id: int)
    requires
        0 <= edge_id < net.edges@.len(),
        0 < net.edges@[edge_id].routelen < net.edges@[edge_id].grids@.len(),
        moves_by_one(net.edges@[edge_id].grids@.take(net.edges@[edge_id].routelen + 1)),
        meets_node(net, net.edges@[edge_id].n1a, net.edges@[edge_id].grids@[0]),
        meets_node(net, net.edges@[edge_id].n2a, net.edges@[edge_id].grids@[net.edges@[edge_id].routelen as int]),
        forall|i: int| 0 <= i < net.pins@.len() ==> 0 <= (#[trigger] net.pins@[i]).layer < i16::MAX,
    ensures
        ({
            let e = net.edges@[edge_id];
            let p = positive_fill(net, edge_id).points;
            let (a, z) = (e.grids@[0], e.grids@[e.routelen as int]);
            &&& moves_by_one(p)
            &&& forall|i: int| 0 <= i <= e.routelen ==> p.contains(#[trigger] e.grids@[i])
            &&& claims(net.nodes@[e.n1a as int], e.n1a as int, edge_id, net.num_terminals as int) ==> forall|layer: int|
                #[trigger] is_joined_layer(net, e.n1a, layer) ==> stands_on(p, a.x, a.y, layer)
            &&& claims(net.nodes@[e.n2a as int], e.n2a as int, edge_id, net.num_terminals as int) ==> forall|layer: int|
                #[trigger] is_joined_layer(net, e.n2a, layer) ==> stands_on(p, z.x, z.y, layer)
        }),
{
    let e = net.edges@[edge_id];
    let path = e.grids@.take(e.routelen + 1);
    let (s, t) = (first_stack(net, edge_id).points, second_stack(net, edge_id).points);
    let p = positive_fill(net, edge_id).points;
    let (a, z) = (e.grids@[0], e.grids@[e.routelen as int]);
    let (head, tail) = (s.push(a), seq![z] + t);
    let first = claims(net.nodes@[e.n1a as int], e.n1a as int, edge_id, net.num_terminals as int);
    let second = claims(net.nodes@[e.n2a as int], e.n2a as int, edge_id, net.num_terminals as int);
    if first {
        lemma_first_stack(net, edge_id);
    }
    if second {
        lemma_second_stack(net, edge_id);
    }
    let (m, n) = (s.len() as int, path.len() as int);
    assert forall|i: int| 0 <= i <= m implies #[trigger] p[i] == head[i] by {}
    assert forall|i: int| m <= i < m + n implies #[trigger] p[i] == path[i - m] by {}
    assert forall|i: int| m + n - 1 <= i < p.len() implies #[trigger] p[i] == tail[i - (m + n - 1)] by {}
    assert forall|i: int| 0 <= i < p.len() - 1 implies distance(#[trigger] p[i], p[i + 1]) == 1 by {
        if i < m {
            assert(p[i] == head[i] && p[i + 1] == head[i + 1]);
        } else if i < m + n - 1 {
            assert(p[i] == path[i - m] && p[i + 1] == path[i - m + 1]);
        } else {
            let j = i - (m + n - 1);
            assert(p[i] == tail[j] && p[i + 1] == tail[j + 1]);
        }
    }
    assert forall|i: int| 0 <= i <= e.routelen implies p.contains(#[trigger] e.grids@[i]) by {
        assert(p[m + i] == path[i]);
    }
    if first {
        assert forall|layer: int| #[trigger] is_joined_layer(net, e.n1a, layer) implies stands_on(p, a.x, a.y, layer) by {
            let i = choose|i: int| 0 <= i < head.len() && (#[trigger] head[i]).x == a.x && head[i].y == a.y && head[i].layer == layer;
            assert(p[i] == head[i]);
        }
    }
    if second {
        assert forall|layer: int| #[trigger] is_joined_layer(net, e.n2a, layer) implies stands_on(p, z.x, z.y, layer) by {
            let i = choose|i: int| 0 <= i < tail.len() && (#[trigger] tail[i]).x == z.x && tail[i].y == z.y && tail[i].layer == layer;
            assert(p[m + n - 1 + i] == tail[i]);
        }
    }
}

/// The stack of a zero-length edge joins the bottoms of both of its nodes and every pin at those that
/// are terminals, and reaches no further than one of these.
pub proof fn a_stack_of_no_length_joins_both_nodes(net: ViaNet, a: usize, b: usize)
    requires
        a < net.nodes@.len(),
        b < net.nodes@.len(),
        0 <= net.nodes@[a as int].bot_layer,
        0 <= net.nodes@[b as int].bot_layer,
        forall|i: int| 0 <= i < net.pins@.len() ==> 0 <= (#[trigger] net.pins@[i]).layer < i16::MAX,
    ensures
        ({
            let (na, nb) = (net.nodes@[a as int], net.nodes@[b as int]);
            let (lo, hi) = zero_range(net, a, b);
            &&& lo <= na.bot_layer <= hi
            &&& lo <= nb.bot_layer <= hi
            &&& forall|i: int|
                0 <= i < net.pins@.len() && ((a < net.num_terminals && stands_at(#[trigger] net.pins@[i], na.x, na.y)) || (b < net.num_terminals
                    && stands_at(net.pins@[i], nb.x, nb.y))) ==> lo <= net.pins@[i].layer <= hi
            &&& lo == na.bot_layer || lo == nb.bot_layer || exists|i: int|
                0 <= i < net.pins@.len() && ((a < net.num_terminals && stands_at(#[trigger] net.pins@[i], na.x, na.y)) || (b < net.num_terminals
                    && stands_at(net.pins@[i], nb.x, nb.y))) && net.pins@[i].layer == lo
            &&& hi == na.bot_layer || hi == nb.bot_layer || exists|i: int|
                0 <= i < net.pins@.len() && ((a < net.num_terminals && stands_at(#[trigger] net.pins@[i], na.x, na.y)) || (b < net.num_terminals
                    && stands_at(net.pins@[i], nb.x, nb.y))) && net.pins@[i].layer == hi
        }),
{
    let (na, nb) = (net.nodes@[a as int], net.nodes@[b as int]);
    let (lo, hi) = zero_range(net, a, b);
    let n = net.pins@.len() as int;
    a_range_is_that_of_the_pins_there(net.pins@, n, na.x, na.y);
    a_range_is_that_of_the_pins_there(net.pins@, n, nb.x, nb.y);
    let (ra, rb) = (pin_range(net.pins@, n, na.x, na.y), pin_range(net.pins@, n, nb.x, nb.y));
    if lo != na.bot_layer && lo != nb.bot_layer {
        assert((a < net.num_terminals && lo == ra.0) || (b < net.num_terminals && lo == rb.0));
        assert(lo < i16::MAX);
    }
    if hi != na.bot_layer && hi != nb.bot_layer {
        assert((a < net.num_terminals && hi == ra.1) || (b < net.num_terminals && hi == rb.1));
        assert(exists|i: int| 0 <= i < n && (stands_at(#[trigger] net.pins@[i], na.x, na.y) || stands_at(net.pins@[i], nb.x, nb.y))) by {
            if forall|i: int| 0 <= i < n ==> !stands_at(#[trigger] net.pins@[i], na.x, na.y) && !stands_at(net.pins@[i], nb.x, nb.y) {
                assert(hi == -1);
                assert(false);
            }
        }
    }
}

} // verus!
