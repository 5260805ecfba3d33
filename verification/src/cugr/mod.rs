//! A second global router, over a graph of gcells: nets are first laid out by patterns, then the
//! congested ones are searched again.

use crate::lists::{all_of, is_first_of, lemma_all_next, lemma_all_none};
use vstd::prelude::*;
use vstd::string::StringExecFns;

use crate::cugr::access::{pattern_error_text, PatternError};
use crate::cugr::design::{design_fits, is_design_of, Design, DesignError, DesignFacts};
use crate::cugr::geo::Point;
use crate::cugr::grid_graph::{commit_error_text, flags_cover, graph_fits, higher, is_graph_of, lower, CommitError, Flags, GridError, GridGraph};
use crate::cugr::grnet::{is_grnet_of, GrNet};
use crate::cugr::tree::{as_pairs, GrTree, GrTreeNode};
use crate::callbacks::same_text;
use crate::grids::{fits, tdiv};
use crate::sorting::{is_order, order_by};
use crate::GSegment;

pub mod access;
pub mod cost;
pub mod design;
pub mod geo;
pub mod grid_graph;
pub mod grnet;
pub mod heap;
pub mod jumpers;
pub mod layers;
pub mod maze_route;
pub mod pattern_route;
pub mod restore;
pub mod route;
pub mod steiner;
pub mod trace;
pub mod tree;

verus! {

/// Why a stage stops: a net cannot be laid out, or its tree cannot be committed.
#[derive(Debug)]
pub enum StageError {
    Pattern(PatternError),
    Commit(CommitError),
}

/// What is said of it.
pub open spec fn stage_error_text(e: StageError) -> Seq<char> {
    match e {
        StageError::Pattern(inner) => "Pattern("@ + pattern_error_text(inner) + ")"@,
        StageError::Commit(inner) => "Commit("@ + commit_error_text(inner) + ")"@,
    }
}

impl StageError {
    /// What is said of it.
    pub fn message(&self) -> (s: String)
        ensures
            s@ == stage_error_text(*self),
    {
        match self {
            StageError::Pattern(inner) => {
                let mut s = String::from_str("Pattern(");
                let inner = inner.message();
                s.append(inner.as_str());
                s.append(")");
                s
            },
            StageError::Commit(inner) => {
                let mut s = String::from_str("Commit(");
                let inner = inner.message();
                s.append(inner.as_str());
                s.append(")");
                s
            },
        }
    }
}

/// The router: the design, the graph over it, and the nets.
#[derive(Debug)]
pub struct Cugr {
    pub design: Design,
    pub grid: GridGraph,
    pub nets: Vec<GrNet>,
}

/// A router that cannot be set up.
#[derive(Debug)]
pub enum InitError {
    Design(DesignError),
    Grid(GridError),
}

/// What nets are sorted by: the rank of the slack, then half the perimeter of the box.
pub open spec fn net_key(net: GrNet, rank: int) -> int {
    rank * 0x1_0000_0000 + net.bounding_box.x.length() + net.bounding_box.y.length()
}

/// Whether half the perimeter of a net's box fits the machine.
pub open spec fn perimeter_fits(net: GrNet) -> bool {
    let b = net.bounding_box;
    fits(b.x.length()) && fits(b.y.length()) && fits(b.x.length() + b.y.length())
}

/// Whether a list of nets is another in order: by the rank of the slack, then by half the perimeter, and
/// where both are equal as they were.
pub open spec fn is_net_order(nets: Seq<GrNet>, ranks: Seq<i32>, before: Seq<usize>, after: Seq<usize>) -> bool {
    exists|keys: Seq<i64>, p: Seq<usize>| #[trigger] sorts_nets(nets, ranks, before, after, keys, p)
}

pub open spec fn sorts_nets(nets: Seq<GrNet>, ranks: Seq<i32>, before: Seq<usize>, after: Seq<usize>, keys: Seq<i64>, p: Seq<usize>) -> bool {
    &&& keys.len() == before.len()
    &&& forall|i: int| 0 <= i < keys.len() ==> #[trigger] keys[i] == net_key(nets[before[i] as int], ranks[before[i] as int] as int)
    &&& is_order(keys, p)
    &&& after.len() == before.len()
    &&& forall|i: int| 0 <= i < after.len() ==> #[trigger] after[i] == before[p[i] as int]
}

/// The segment of a wire between two cells of a layer, from the lower to the higher corner.
pub open spec fn wire_segment(c: Cugr, layer: int, a: Point, b: Point) -> GSegment {
    GSegment {
        init_x: c.center_at(0, lower(a.x as int, b.x as int)) as i32,
        init_y: c.center_at(1, lower(a.y as int, b.y as int)) as i32,
        init_layer: (layer + 1) as i32,
        final_x: c.center_at(0, higher(a.x as int, b.x as int)) as i32,
        final_y: c.center_at(1, higher(a.y as int, b.y as int)) as i32,
        final_layer: (layer + 1) as i32,
        is_jumper: false,
    }
}

/// The segment of a via from a layer to the one above.
pub open spec fn via_segment(c: Cugr, p: Point, l: int) -> GSegment {
    GSegment {
        init_x: c.center_at(0, p.x as int) as i32,
        init_y: c.center_at(1, p.y as int) as i32,
        init_layer: (l + 1) as i32,
        final_x: c.center_at(0, p.x as int) as i32,
        final_y: c.center_at(1, p.y as int) as i32,
        final_layer: (l + 2) as i32,
        is_jumper: false,
    }
}

/// The segments of a link: a wire where it stays on a layer and moves, a via for every layer that it
/// crosses, at the parent's cell and from the bottom up.
pub open spec fn link_segments(c: Cugr, a: GrTreeNode, b: GrTreeNode) -> Seq<GSegment> {
    if a.layer == b.layer {
        if a.p == b.p { Seq::empty() } else { seq![wire_segment(c, a.layer as int, a.p, b.p)] }
    } else {
        let (lo, hi) = (lower(a.layer as int, b.layer as int), higher(a.layer as int, b.layer as int));
        Seq::new((hi - lo) as nat, |i: int| via_segment(c, a.p, lo + i))
    }
}

/// The segments of the first `n` links of a tree.
pub open spec fn tree_segments(c: Cugr, nodes: Seq<GrTreeNode>, links: Seq<(int, int)>, n: int) -> Seq<GSegment>
    decreases n,
{
    if n <= 0 { Seq::empty() } else { tree_segments(c, nodes, links, n - 1) + link_segments(c, nodes[links[n - 1].0], nodes[links[n - 1].1]) }
}

/// Whether all chosen cells of a net are one.
pub open spec fn all_in_one_cell(net: GrNet) -> bool {
    forall|i: int, j: int|
        0 <= i < net.preferred_aps@.len() && 0 <= j < net.preferred_aps@.len() && (#[trigger] net.preferred_aps@[i]) is Some && (#[trigger] net.preferred_aps@[j]) is Some
            ==> (net.preferred_aps@[i]->0).0 == (net.preferred_aps@[j]->0).0
}

/// The route of a net: nothing for one of a single pin or within one cell.
pub open spec fn route_of(c: Cugr, net: GrNet) -> Seq<GSegment> {
    match net.routing_tree {
        Some(t) => if net.pin_access_points@.len() < 2 || all_in_one_cell(net) {
            Seq::empty()
        } else {
            tree_segments(c, t.nodes@, t.links(), t.links().len() as int)
        },
        None => Seq::empty(),
    }
}

/// The first pin of a name and kind, from `k` on.
pub open spec fn pin_named(pins: Seq<design::CugrPin>, name: Seq<char>, is_port: bool, k: int) -> Option<int>
    decreases pins.len() - k,
{
    if k >= pins.len() {
        None
    } else if pins[k].name@ == name && pins[k].is_port == is_port {
        Some(k)
    } else {
        pin_named(pins, name, is_port, k + 1)
    }
}

/// The access point of a pin: the low gridlines of its chosen cell and the top of its layers, from 1.
pub open spec fn access_of(c: Cugr, net: GrNet, name: Seq<char>, is_port: bool) -> Option<(int, int, int)> {
    if net.index >= c.design.nets@.len() {
        None
    } else {
        match pin_named(c.design.nets@[net.index as int].pins@, name, is_port, 0) {
            Some(k) => if k < net.preferred_aps@.len() {
                match net.preferred_aps@[k] {
                    Some((p, layers)) => Some((c.grid.gridlines@[0]@[p.x as int] as int, c.grid.gridlines@[1]@[p.y as int] as int, layers.high + 1)),
                    None => None,
                }
            } else {
                None
            },
            None => None,
        }
    }
}

impl Cugr {
    /// The point of a cell: its low gridline and half a nominal gcell, not the middle of the gcell.
    pub open spec fn center_at(&self, d: int, index: int) -> int {
        self.grid.gridlines@[d]@[index] + tdiv(self.design.gridline_spacing as int, 2)
    }

    /// Whether the point of every cell fits the machine.
    pub open spec fn centers_fit(&self) -> bool {
        forall|d: int, i: int| 0 <= d < 2 && 0 <= i < self.grid.extent(d) ==> fits(#[trigger] self.center_at(d, i))
    }

    /// The point of a cell: its low gridline and half a nominal gcell, not the middle of the gcell.
    pub fn gridline_center(&self, dimension: usize, index: i32) -> (r: i32)
        requires
            self.grid.wf(),
            dimension <= 1,
            0 <= index < self.grid.gridlines@[dimension as int]@.len(),
            fits(self.center_at(dimension as int, index as int)),
        ensures
            r == self.center_at(dimension as int, index as int),
    {
        self.grid.gridlines[dimension][index as usize] + self.design.gridline_spacing / 2
    }

    /// Whether no cell is chosen, or all chosen are one.
    pub fn is_local(net: &GrNet) -> (r: bool)
        ensures
            r == all_in_one_cell(*net),
    {
        let ghost aps = net.preferred_aps@;
        let mut first: Option<Point> = None;
        let ghost mut at: int = -1;
        let mut k: usize = 0;
        while k < net.preferred_aps.len()
            invariant
                aps == net.preferred_aps@,
                k <= aps.len(),
                match first {
                    Some(p) => {
                        &&& 0 <= at < k
                        &&& aps[at] is Some
                        &&& (aps[at]->0).0 == p
                        &&& forall|j: int| 0 <= j < k && (#[trigger] aps[j]) is Some ==> (aps[j]->0).0 == p
                    },
                    None => forall|j: int| 0 <= j < k ==> (#[trigger] aps[j]) is None,
                },
            decreases aps.len() - k,
        {
            match net.preferred_aps[k] {
                Some((p, _)) => {
                    match first {
                        Some(f) => {
                            if f != p {
                                assert(aps[k as int] is Some && aps[at] is Some);
                                return false;
                            }
                        },
                        None => {
                            first = Some(p);
                            proof {
                                at = k as int;
                            }
                        },
                    }
                },
                None => {},
            }
            k += 1;
        }
        true
    }

    /// The route of a net of two pins or more that is not within one cell, in walking order: a wire from
    /// its lower to its higher corner, a via for every layer crossed, both at the points of their cells.
    pub fn net_route(&self, net: &GrNet) -> (route: Vec<GSegment>)
        requires
            self.grid.wf(),
            self.centers_fit(),
            net.routing_tree matches Some(t) ==> self.grid.holds_tree(t) && layers_fit(t),
        ensures
            route@ == route_of(*self, *net),
    {
        let mut route: Vec<GSegment> = Vec::new();
        let tree = match &net.routing_tree {
            Some(t) => t,
            None => {
                return route;
            },
        };
        if net.num_pins() < 2 || Cugr::is_local(net) {
            return route;
        }
        let links = tree.edges();
        let ghost spec_links = tree.links();
        let mut k: usize = 0;
        assert(spec_links.len() == links@.len()) by {
            assert(as_pairs(links@).len() == links@.len());
        }
        while k < links.len()
            invariant
                self.grid.wf(),
                self.centers_fit(),
                self.grid.holds_tree(*tree),
                layers_fit(*tree),
                spec_links == tree.links(),
                as_pairs(links@) == spec_links,
                spec_links.len() == links@.len(),
                forall|i: int| 0 <= i < links@.len() ==> (#[trigger] links@[i]).0 < tree.nodes@.len() && links@[i].1 < tree.nodes@.len(),
                k <= links@.len(),
                route@ == tree_segments(*self, tree.nodes@, spec_links, k as int),
            decreases links@.len() - k,
        {
            let (n, c) = links[k];
            proof {
                assert(spec_links[k as int] == (n as int, c as int)) by {
                    assert(as_pairs(links@)[k as int] == (n as int, c as int));
                }
                assert(self.grid.holds_link(tree.nodes@[spec_links[k as int].0], tree.nodes@[spec_links[k as int].1]));
            }
            self.push_link(&tree.nodes[n], &tree.nodes[c], &mut route);
            k += 1;
        }
        route
    }

    fn push_link(&self, a: &GrTreeNode, b: &GrTreeNode, route: &mut Vec<GSegment>)
        requires
            self.grid.wf(),
            self.centers_fit(),
            self.grid.has_cell(a.p),
            self.grid.has_cell(b.p),
            0 <= a.layer < i32::MAX,
            0 <= b.layer < i32::MAX,
        ensures
            final(route)@ == old(route)@ + link_segments(*self, *a, *b),
    {
        let ghost route0 = route@;
        let ghost all = link_segments(*self, *a, *b);
        if a.layer == b.layer {
            if a.p == b.p {
                assert(route@ =~= route0 + all);
                return;
            }
            let (x0, x1) = if a.p.x < b.p.x { (a.p.x, b.p.x) } else { (b.p.x, a.p.x) };
            let (y0, y1) = if a.p.y < b.p.y { (a.p.y, b.p.y) } else { (b.p.y, a.p.y) };
            assert(fits(self.center_at(0, x0 as int)) && fits(self.center_at(0, x1 as int)));
            assert(fits(self.center_at(1, y0 as int)) && fits(self.center_at(1, y1 as int)));
            route.push(
                GSegment {
                    init_x: self.gridline_center(0, x0),
                    init_y: self.gridline_center(1, y0),
                    init_layer: a.layer + 1,
                    final_x: self.gridline_center(0, x1),
                    final_y: self.gridline_center(1, y1),
                    final_layer: b.layer + 1,
                    is_jumper: false,
                },
            );
            assert(route@ =~= route0 + all);
            return;
        }
        assert(fits(self.center_at(0, a.p.x as int)) && fits(self.center_at(1, a.p.y as int)));
        let x: i32 = self.gridline_center(0, a.p.x);
        let y: i32 = self.gridline_center(1, a.p.y);
        let (lo, hi) = if a.layer < b.layer { (a.layer, b.layer) } else { (b.layer, a.layer) };
        let mut l: i32 = lo;
        assert(route@ =~= route0 + all.take(0));
        while l < hi
            invariant
                0 <= lo <= l <= hi < i32::MAX,
                all == Seq::new((hi - lo) as nat, |i: int| via_segment(*self, a.p, lo + i)),
                x == self.center_at(0, a.p.x as int),
                y == self.center_at(1, a.p.y as int),
                route@ == route0 + all.take(l - lo),
            decreases hi - l,
        {
            route.push(GSegment { init_x: x, init_y: y, init_layer: l + 1, final_x: x, final_y: y, final_layer: l + 2, is_jumper: false });
            assert(all[l - lo] == via_segment(*self, a.p, l as int));
            l += 1;
            assert(route@ =~= route0 + all.take(l - lo));
        }
        assert(all.take(l - lo) =~= all);
    }

    /// The access point of a pin by the name of its terminal: the low gridlines of its chosen cell and
    /// the top of its layers, from 1.
    pub fn pin_access_point(&self, net: &GrNet, pin_name: &str, is_port: bool) -> (r: Option<(i32, i32, i32)>)
        requires
            self.grid.wf(),
            forall|k: int|
                0 <= k < net.preferred_aps@.len() ==> ((#[trigger] net.preferred_aps@[k]) matches Some((p, layers)) ==> self.grid.has_cell(p) && layers.high < i32::MAX),
        ensures
            match r {
                Some((x, y, l)) => access_of(*self, *net, pin_name@, is_port) == Some((x as int, y as int, l as int)),
                None => access_of(*self, *net, pin_name@, is_port) is None,
            },
    {
        if net.index >= self.design.nets.len() {
            return None;
        }
        let pins = &self.design.nets[net.index].pins;
        let mut k: usize = 0;
        while k < pins.len()
            invariant
                self.grid.wf(),
                forall|k: int|
                    0 <= k < net.preferred_aps@.len() ==> ((#[trigger] net.preferred_aps@[k]) matches Some((p, layers)) ==> self.grid.has_cell(p) && layers.high < i32::MAX),
                net.index < self.design.nets@.len(),
                *pins == self.design.nets@[net.index as int].pins,
                k <= pins@.len(),
                pin_named(pins@, pin_name@, is_port, k as int) == pin_named(pins@, pin_name@, is_port, 0),
            decreases pins@.len() - k,
        {
            if same_text(pins[k].name.as_str(), pin_name) && pins[k].is_port == is_port {
                if k >= net.preferred_aps.len() {
                    return None;
                }
                return match net.preferred_aps[k] {
                    Some((p, layers)) => {
                        assert(net.preferred_aps@[k as int] is Some);
                        Some((self.grid.gridlines[0][p.x as usize], self.grid.gridlines[1][p.y as usize], layers.high + 1))
                    },
                    None => None,
                };
            }
            k += 1;
        }
        None
    }

    /// Sorts nets by the rank of their slack, then by half the perimeter of their boxes; equal ones stay
    /// as they are. Smaller ranks stand for smaller slacks.
    pub fn sort_net_indices(&self, ranks: &Vec<i32>, indices: &mut Vec<usize>)
        requires
            ranks@.len() == self.nets@.len(),
            forall|i: int| 0 <= i < old(indices)@.len() ==> #[trigger] old(indices)@[i] < self.nets@.len(),
            forall|k: int| 0 <= k < self.nets@.len() ==> perimeter_fits(#[trigger] self.nets@[k]),
        ensures
            is_net_order(self.nets@, ranks@, old(indices)@, final(indices)@),
    {
        let ghost before = indices@;
        let mut keys: Vec<i64> = Vec::new();
        let mut i: usize = 0;
        while i < indices.len()
            invariant
                indices@ == before,
                i <= before.len(),
                ranks@.len() == self.nets@.len(),
                forall|i: int| 0 <= i < before.len() ==> #[trigger] before[i] < self.nets@.len(),
                forall|k: int| 0 <= k < self.nets@.len() ==> perimeter_fits(#[trigger] self.nets@[k]),
                keys@.len() == i,
                forall|j: int| 0 <= j < i ==> #[trigger] keys@[j] == net_key(self.nets@[before[j] as int], ranks@[before[j] as int] as int),
            decreases before.len() - i,
        {
            let k: usize = indices[i];
            assert(before[i as int] < self.nets@.len());
            assert(perimeter_fits(self.nets@[k as int]));
            let hp: i32 = self.nets[k].bounding_box.hp();
            keys.push((ranks[k] as i64) * 0x1_0000_0000 + hp as i64);
            i += 1;
        }
        let p = order_by(&keys);
        let mut out: Vec<usize> = Vec::new();
        let mut i: usize = 0;
        while i < p.len()
            invariant
                indices@ == before,
                i <= p@.len() == before.len(),
                is_order(keys@, p@),
                keys@.len() == before.len(),
                out@.len() == i,
                forall|j: int| 0 <= j < i ==> #[trigger] out@[j] == before[p@[j] as int],
            decreases p@.len() - i,
        {
            assert(p@[i as int] < before.len());
            out.push(indices[p[i]]);
            i += 1;
        }
        *indices = out;
        assert(sorts_nets(self.nets@, ranks@, before, indices@, keys@, p@));
    }

    /// The nets whose trees cross an edge with more demand than capacity.
    pub fn congested_nets(&self, over: &Flags) -> (out: Vec<usize>)
        requires
            self.grid.wf(),
            flags_cover(*over, self.grid.num_layers as int, self.grid.x_size as int, self.grid.y_size as int),
            forall|k: int| 0 <= k < self.nets@.len() ==> tree_countable(*self, #[trigger] self.nets@[k], *over),
        ensures
            out@ == congested(*self, *over, self.nets@.len() as int),
    {
        let mut out: Vec<usize> = Vec::new();
        let mut k: usize = 0;
        while k < self.nets.len()
            invariant
                self.grid.wf(),
                flags_cover(*over, self.grid.num_layers as int, self.grid.x_size as int, self.grid.y_size as int),
                forall|k: int| 0 <= k < self.nets@.len() ==> tree_countable(*self, #[trigger] self.nets@[k], *over),
                k <= self.nets@.len(),
                out@ == congested(*self, *over, k as int),
            decreases self.nets@.len() - k,
        {
            assert(tree_countable(*self, self.nets@[k as int], *over));
            match &self.nets[k].routing_tree {
                Some(t) => {
                    if self.grid.check_congestion(t, over) > 0 {
                        out.push(k);
                    }
                },
                None => {},
            }
            k += 1;
        }
        out
    }
}

/// Whether the layers that a tree's links join fit as levels from 1.
pub open spec fn layers_fit(t: GrTree) -> bool {
    forall|k: int| 0 <= k < t.links().len() ==> t.nodes@[(#[trigger] t.links()[k]).0].layer < i32::MAX && t.nodes@[t.links()[k].1].layer < i32::MAX
}

/// Whether the flagged edges of a net's tree can be counted.
pub open spec fn tree_countable(c: Cugr, net: GrNet, over: Flags) -> bool {
    net.routing_tree matches Some(t) ==> c.grid.holds_tree(t) && c.grid.tree_flags(over, t.nodes@, t.links(), t.links().len() as int) <= usize::MAX
}

/// Whether a net's tree crosses a flagged edge.
pub open spec fn is_congested(c: Cugr, net: GrNet, over: Flags) -> bool {
    net.routing_tree matches Some(t) && c.grid.tree_flags(over, t.nodes@, t.links(), t.links().len() as int) > 0
}

/// Those of the first `n` nets whose trees cross a flagged edge.
pub open spec fn congested(c: Cugr, over: Flags, n: int) -> Seq<usize>
    decreases n,
{
    if n <= 0 {
        Seq::empty()
    } else {
        let s = congested(c, over, n - 1);
        if is_congested(c, c.nets@[n - 1], over) { s.push((n - 1) as usize) } else { s }
    }
}

/// Whether setting up a router fits the machine: the design does, and the graph over it.
pub open spec fn init_fits(f: DesignFacts, min_routing_layer: i32, max_routing_layer: i32) -> bool {
    &&& min_routing_layer >= 1
    &&& design_fits(f, min_routing_layer, max_routing_layer)
    &&& forall|d: Design| #[trigger] is_design_of(f, design::VIA_MULTIPLIER, min_routing_layer, max_routing_layer, d) && d.layers@.len() >= 2 ==> graph_fits(d, min_routing_layer - 1) && pins_fit(d)
}

pub open spec fn pins_fit(d: Design) -> bool {
    forall|k: int| 0 <= k < d.nets@.len() ==> (#[trigger] d.nets@[k]).pins@.len() <= i32::MAX
}

/// Whether a router is the one that the facts give: the design, the graph over it, and its nets.
pub open spec fn is_router_of(f: DesignFacts, driver_terms: Seq<String>, min_routing_layer: i32, max_routing_layer: i32, c: Cugr) -> bool {
    &&& is_design_of(f, design::VIA_MULTIPLIER, min_routing_layer, max_routing_layer, c.design)
    &&& is_graph_of(c.design, min_routing_layer - 1, c.grid)
    &&& c.nets@.len() == c.design.nets@.len()
    &&& forall|k: int| 0 <= k < c.nets@.len() ==> is_grnet_of(c.grid, c.design.nets@[k], driver_terms[c.design.nets@[k].facts_index as int]@, #[trigger] c.nets@[k])
}

/// Sets up a router: the design, the graph over it, and a net for every net of the design. The driver
/// terminals are by net of the block.
pub fn init(facts: &DesignFacts, driver_terms: &Vec<String>, min_routing_layer: i32, max_routing_layer: i32) -> (r: Result<Cugr, InitError>)
    requires
        init_fits(*facts, min_routing_layer, max_routing_layer),
        driver_terms@.len() >= facts.nets@.len(),
    ensures
        match r {
            Ok(c) => is_router_of(*facts, driver_terms@, min_routing_layer, max_routing_layer, c) && design::can_negate(c.design, c.design.layers@.len() as int),
            Err(InitError::Design(e)) => is_design_refused(*facts, max_routing_layer, e),
            Err(InitError::Grid(e)) => exists|d: Design| #[trigger] is_design_of(*facts, design::VIA_MULTIPLIER, min_routing_layer, max_routing_layer, d) && is_grid_refused(d, min_routing_layer - 1, e),
        },
{
    let design = match Design::new(facts, design::VIA_MULTIPLIER, min_routing_layer, max_routing_layer) {
        Ok(d) => d,
        Err(e) => {
            return Err(InitError::Design(e));
        },
    };
    assert(is_design_of(*facts, design::VIA_MULTIPLIER, min_routing_layer, max_routing_layer, design));
    let grid = match GridGraph::new(&design, (min_routing_layer - 1) as usize) {
        Ok(g) => g,
        Err(e) => {
            return Err(InitError::Grid(e));
        },
    };
    let mut nets: Vec<GrNet> = Vec::new();
    let mut k: usize = 0;
    while k < design.nets.len()
        invariant
            driver_terms@.len() >= facts.nets@.len(),
            is_design_of(*facts, design::VIA_MULTIPLIER, min_routing_layer, max_routing_layer, design),
            design::can_negate(design, design.layers@.len() as int),
            pins_fit(design),
            is_graph_of(design, min_routing_layer - 1, grid),
            k <= design.nets@.len(),
            nets@.len() == k,
            forall|j: int| 0 <= j < k ==> is_grnet_of(grid, design.nets@[j], driver_terms@[design.nets@[j].facts_index as int]@, #[trigger] nets@[j]),
        decreases design.nets@.len() - k,
    {
        let n = &design.nets[k];
        proof {
            design::net_places_are_in_range(*facts, design::VIA_MULTIPLIER, min_routing_layer, max_routing_layer, design, k as int);
        }
        match GrNet::new(n, driver_terms[n.facts_index].as_str(), &grid) {
            Ok(g) => {
                nets.push(g);
            },
            Err(e) => {
                assert(is_net_refused(design, min_routing_layer - 1, grid, k as int, e));
                return Err(InitError::Grid(e));
            },
        }
        k += 1;
    }
    Ok(Cugr { design, grid, nets })
}

/// Whether reading the facts gives an error.
pub open spec fn is_design_refused(f: DesignFacts, max_routing_layer: i32, e: DesignError) -> bool {
    match e {
        DesignError::SpecialWireOffRoutingLayer { net } => design::is_first_refused(f, max_routing_layer, net@),
        DesignError::DieSmallerThanGcell => f.die.0 + f.gcell_tile_size >= f.die.2 || f.die.1 + f.gcell_tile_size >= f.die.3,
        DesignError::TooFewLayers => design::kept_layers(f.layers@, max_routing_layer, f.layers@.len() as int).len() < 2,
    }
}

/// Whether the `k`-th net of a design has a shape outside the die.
pub open spec fn is_net_refused(d: Design, min_routing_layer: int, g: GridGraph, k: int, e: GridError) -> bool {
    &&& 0 <= k < d.nets@.len()
    &&& is_graph_of(d, min_routing_layer, g)
    &&& exists|p: int, s: int| #[trigger] grnet::is_first_shape_outside(g, d.nets@[k], p, s) && e == grnet::shape_error(g, d.nets@[k].pins@[p].shapes@[s])
}

/// Whether the graph over a design, or one of its nets, has a shape outside the die.
pub open spec fn is_grid_refused(d: Design, min_routing_layer: int, e: GridError) -> bool {
    ||| exists|l: int, k: int| #[trigger] grid_graph::is_first_outside(d, min_routing_layer, l, k) && e == grid_graph::outside_error(d, l, k)
    ||| exists|g: GridGraph, k: int| #[trigger] is_net_refused(d, min_routing_layer, g, k, e)
}

/// The route of a net is made of the segments of every link of its tree, link after link.
pub proof fn a_route_is_that_of_every_link_of_its_tree(c: Cugr, nodes: Seq<GrTreeNode>, links: Seq<(int, int)>, n: int)
    requires
        0 <= n,
    ensures
        tree_segments(c, nodes, links, n) == all_of(
            n,
            |k: int| link_segments(c, nodes[links[k].0], nodes[links[k].1]),
        ),
    decreases n,
{
    let f = |k: int| link_segments(c, nodes[links[k].0], nodes[links[k].1]);
    if n > 0 {
        a_route_is_that_of_every_link_of_its_tree(c, nodes, links, n - 1);
        lemma_all_next(n - 1, f);
    } else {
        lemma_all_none(f);
    }
    assert(tree_segments(c, nodes, links, n) =~= all_of(n, f));
}

/// The congested nets are those with a tree that runs over a flagged edge, in order.
pub proof fn the_congested_nets_are_those_over_a_full_edge(c: Cugr, over: Flags, n: int)
    requires
        0 <= n,
    ensures
        congested(c, over, n) == all_of(
            n,
            |k: int| if c.nets@[k].routing_tree is Some && c.grid.tree_flags(over, c.nets@[k].routing_tree->Some_0.nodes@, c.nets@[k].routing_tree->Some_0.links(), c.nets@[k].routing_tree->Some_0.links().len() as int) > 0 { seq![k as usize] } else { Seq::empty() },
        ),
    decreases n,
{
    let f = |k: int| if c.nets@[k].routing_tree is Some && c.grid.tree_flags(over, c.nets@[k].routing_tree->Some_0.nodes@, c.nets@[k].routing_tree->Some_0.links(), c.nets@[k].routing_tree->Some_0.links().len() as int) > 0 { seq![k as usize] } else { Seq::empty() };
    if n > 0 {
        the_congested_nets_are_those_over_a_full_edge(c, over, n - 1);
        lemma_all_next(n - 1, f);
    } else {
        lemma_all_none(f);
    }
    assert(congested(c, over, n) =~= all_of(n, f));
}

/// A pin is found at the first place with its name and kind, and wherever there is one.
pub proof fn a_pin_is_found_by_name_and_kind(pins: Seq<design::CugrPin>, name: Seq<char>, is_port: bool, k: int)
    requires
        0 <= k <= pins.len(),
    ensures
        is_first_of(pin_named(pins, name, is_port, k), k, pins.len() as int, |i: int| pins[i].name@ == name && pins[i].is_port == is_port),
    decreases pins.len() - k,
{
    if k < pins.len() {
        a_pin_is_found_by_name_and_kind(pins, name, is_port, k + 1);
    }
}

/// A link of a tree is drawn alike from either end where it is a wire or stands at one place: a wire as one
/// segment on its layer, vias as one segment for every layer crossed, each above the one before.
pub proof fn a_link_is_drawn_alike_from_either_end(c: Cugr, a: GrTreeNode, b: GrTreeNode, i: int)
    requires
        a.layer == b.layer || a.p == b.p,
        0 <= a.layer < i32::MAX - 2,
        0 <= b.layer < i32::MAX - 2,
    ensures
        link_segments(c, a, b) == link_segments(c, b, a),
        a.layer == b.layer && a.p == b.p ==> link_segments(c, a, b).len() == 0,
        a.layer == b.layer && a.p != b.p ==> {
            let s = link_segments(c, a, b)[0];
            link_segments(c, a, b).len() == 1 && s.init_layer == a.layer + 1 && s.final_layer == a.layer + 1
        },
        a.layer < b.layer ==> link_segments(c, a, b).len() == b.layer - a.layer,
        a.layer < b.layer && 0 <= i < b.layer - a.layer ==> {
            let s = link_segments(c, a, b)[i];
            &&& s.init_layer == a.layer + 1 + i
            &&& s.final_layer == s.init_layer + 1
            &&& s.init_x == s.final_x
            &&& s.init_y == s.final_y
        },
{
    assert(link_segments(c, a, b) =~= link_segments(c, b, a));
}

} // verus!
