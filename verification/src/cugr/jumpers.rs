//! What a jumper would ask of the graph: on which edges it lays demand, and where the wire that it
//! replaces gives some back.

use vstd::prelude::*;

use crate::cugr::design::Design;
use crate::cugr::geo::Point;
use crate::cugr::grid_graph::{coord, higher, lower, straight, Commit, GridGraph};

verus! {

/// A deposit, and whether it is given back.
#[derive(Debug, Clone, Copy, PartialEq, Eq, Structural)]
pub struct JumperDemand {
    pub credit: bool,
    pub commit: Commit,
}

/// Deposits as demands.
pub open spec fn demands_of(commits: Seq<Commit>, credit: bool) -> Seq<JumperDemand> {
    commits.map_values(|c: Commit| JumperDemand { credit, commit: c })
}

/// The wire of a jumper on a layer: from one end to the other along the layer's direction, at the first
/// end's place across it.
pub open spec fn jumper_wire(g: GridGraph, a: Point, b: Point, layer: int) -> Seq<Commit> {
    let d = g.layer_directions@[layer] as int;
    straight(layer, a, d, lower(coord(a, d), coord(b, d)), higher(coord(a, d), coord(b, d)))
}

/// The vias at an end of a jumper: the two that climb to its layer.
pub open spec fn jumper_vias(g: GridGraph, design: Design, p: Point, layer: int) -> Seq<Commit> {
    g.via_deposits(layer - 2, p, design.via_demand_length_lower@[layer - 2], design.via_demand_length_upper@[layer - 2]) + g.via_deposits(
        layer - 1,
        p,
        design.via_demand_length_lower@[layer - 1],
        design.via_demand_length_upper@[layer - 1],
    )
}

/// What a jumper asks: its wire, the wire two layers down given back where the net has a tree, and the vias
/// at both ends. None where the layer has not two below it, or an end lies off the grid.
pub open spec fn jumper_asks(g: GridGraph, design: Design, a: Point, b: Point, level: int, has_tree: bool) -> Option<Seq<JumperDemand>> {
    let layer = level - 1;
    if layer - 2 < 0 || layer >= g.num_layers || !g.has_cell(a) || !g.has_cell(b) {
        None
    } else {
        Some(
            demands_of(jumper_wire(g, a, b, layer), false) + (if has_tree { demands_of(jumper_wire(g, a, b, layer - 2), true) } else { Seq::empty() }) + demands_of(
                jumper_vias(g, design, a, layer),
                false,
            ) + demands_of(jumper_vias(g, design, b, layer), false),
        )
    }
}

fn push_demands(out: &mut Vec<JumperDemand>, commits: &Vec<Commit>, credit: bool)
    ensures
        final(out)@ == old(out)@ + demands_of(commits@, credit),
{
    let ghost out0 = out@;
    let ghost all = demands_of(commits@, credit);
    let mut k: usize = 0;
    assert(out@ =~= out0 + all.take(0));
    while k < commits.len()
        invariant
            all == demands_of(commits@, credit),
            k <= commits@.len(),
            out@ == out0 + all.take(k as int),
        decreases commits@.len() - k,
    {
        out.push(JumperDemand { credit, commit: commits[k] });
        k += 1;
        assert(out@ =~= out0 + all.take(k as int));
    }
    assert(all.take(k as int) =~= all);
}

impl GridGraph {
    /// Whether a layer is below the top and a cell on the grid.
    pub fn in_grid(&self, layer: i32, x: i32, y: i32) -> (r: bool)
        ensures
            r == (layer < self.num_layers && self.has_cell(Point { x, y })),
    {
        (layer < 0 || (layer as usize) < self.num_layers) && x >= 0 && (x as usize) < self.x_size && y >= 0 && (y as usize) < self.y_size
    }

    fn push_wire(&self, a: Point, b: Point, layer: usize, credit: bool, out: &mut Vec<JumperDemand>)
        requires
            self.wf(),
            layer < self.num_layers,
            self.has_cell(a),
            self.has_cell(b),
        ensures
            final(out)@ == old(out)@ + demands_of(jumper_wire(*self, a, b, layer as int), credit),
    {
        let d: usize = self.layer_directions[layer];
        assert(self.layer_directions@[layer as int] <= 1);
        let mut c = a;
        c.set(d, b.get(d));
        let ghost want = jumper_wire(*self, a, b, layer as int);
        match self.wire_edges(layer, a, c) {
            Some(edges) => {
                assert(edges@ =~= want);
                push_demands(out, &edges, credit);
            },
            None => {},
        }
    }

    fn push_vias_at(&self, design: &Design, p: Point, layer: usize, out: &mut Vec<JumperDemand>)
        requires
            self.wf(),
            self.flanks_fit(),
            2 <= layer < self.num_layers,
            self.has_cell(p),
            design.via_demand_length_lower@.len() >= self.num_layers,
            design.via_demand_length_upper@.len() >= self.num_layers,
        ensures
            final(out)@ == old(out)@ + demands_of(jumper_vias(*self, *design, p, layer as int), false),
    {
        let ghost out0 = out@;
        let first = self.via_flank_edges(layer - 2, p, design.via_demand_length_lower[layer - 2], design.via_demand_length_upper[layer - 2]);
        push_demands(out, &first, false);
        let second = self.via_flank_edges(layer - 1, p, design.via_demand_length_lower[layer - 1], design.via_demand_length_upper[layer - 1]);
        push_demands(out, &second, false);
        assert(out@ =~= out0 + demands_of(jumper_vias(*self, *design, p, layer as int), false));
    }

    /// What a jumper on a layer (from 1) asks of the edges, in the order in which it is summed: its wire,
    /// the wire two layers down given back where the net has a tree, and at each end the vias that climb to
    /// it. None where the layer has not two below it, or an end lies off the grid.
    pub fn jumper_demands(&self, design: &Design, a: Point, b: Point, layer_level: i32, has_tree: bool) -> (r: Option<Vec<JumperDemand>>)
        requires
            self.wf(),
            self.flanks_fit(),
            self.num_layers <= i32::MAX,
            layer_level > i32::MIN,
            design.via_demand_length_lower@.len() >= self.num_layers,
            design.via_demand_length_upper@.len() >= self.num_layers,
        ensures
            match r {
                Some(out) => jumper_asks(*self, *design, a, b, layer_level as int, has_tree) == Some(out@),
                None => jumper_asks(*self, *design, a, b, layer_level as int, has_tree) is None,
            },
    {
        let layer: i32 = layer_level - 1;
        if layer < 2 || layer as usize >= self.num_layers || !self.in_grid(layer, a.x, a.y) || !self.in_grid(layer, b.x, b.y) {
            return None;
        }
        let at: usize = layer as usize;
        let mut out: Vec<JumperDemand> = Vec::new();
        self.push_wire(a, b, at, false, &mut out);
        if has_tree {
            self.push_wire(a, b, at - 2, true, &mut out);
        }
        self.push_vias_at(design, a, at, &mut out);
        self.push_vias_at(design, b, at, &mut out);
        assert(Some(out@) =~= jumper_asks(*self, *design, a, b, layer_level as int, has_tree)) by {
            assert(out@ =~= jumper_asks(*self, *design, a, b, layer_level as int, has_tree)->0);
        }
        Some(out)
    }
}

proof fn lemma_among(commits: Seq<Commit>, credit: bool, d: JumperDemand)
    ensures
        demands_of(commits, credit).contains(d) <==> d.credit == credit && commits.contains(d.commit),
{
    let s = demands_of(commits, credit);
    if s.contains(d) {
        let i = choose|i: int| 0 <= i < s.len() && s[i] == d;
        assert(commits[i] == d.commit);
    }
    if d.credit == credit && commits.contains(d.commit) {
        let i = choose|i: int| 0 <= i < commits.len() && commits[i] == d.commit;
        assert(s[i] == d);
    }
}

proof fn lemma_in_either(a: Seq<JumperDemand>, b: Seq<JumperDemand>, d: JumperDemand)
    ensures
        (a + b).contains(d) <==> a.contains(d) || b.contains(d),
{
    let s = a + b;
    if a.contains(d) {
        let i = choose|i: int| 0 <= i < a.len() && a[i] == d;
        assert(s[i] == d);
    }
    if b.contains(d) {
        let i = choose|i: int| 0 <= i < b.len() && b[i] == d;
        assert(s[a.len() + i] == d);
    }
    if s.contains(d) {
        let i = choose|i: int| 0 <= i < s.len() && s[i] == d;
        if i < a.len() {
            assert(a[i] == d);
        } else {
            assert(b[i - a.len()] == d);
        }
    }
}

/// A jumper asks for its wire and for the two vias that climb to it at each end, and is given back only
/// the wire two layers down, and that only where the net has a tree. It is refused where there are not two
/// layers below it, where its layer is not there, or where an end lies off the grid.
pub proof fn a_jumper_asks_for_its_wire_and_climbs(g: GridGraph, design: Design, a: Point, b: Point, level: int, has_tree: bool, d: JumperDemand)
    ensures
        jumper_asks(g, design, a, b, level, has_tree) is Some <==> 3 <= level <= g.num_layers && g.has_cell(a) && g.has_cell(b),
        jumper_asks(g, design, a, b, level, has_tree) matches Some(s) ==> {
            s.contains(d) <==> if d.credit {
                has_tree && jumper_wire(g, a, b, level - 3).contains(d.commit)
            } else {
                ||| jumper_wire(g, a, b, level - 1).contains(d.commit)
                ||| jumper_vias(g, design, a, level - 1).contains(d.commit)
                ||| jumper_vias(g, design, b, level - 1).contains(d.commit)
            }
        },
{
    let layer = level - 1;
    let (w, x, y) = (jumper_wire(g, a, b, layer), jumper_vias(g, design, a, layer), jumper_vias(g, design, b, layer));
    let back = jumper_wire(g, a, b, layer - 2);
    let first = demands_of(w, false);
    let second = if has_tree { demands_of(back, true) } else { Seq::empty() };
    let (third, fourth) = (demands_of(x, false), demands_of(y, false));
    lemma_among(w, false, d);
    lemma_among(back, true, d);
    lemma_among(x, false, d);
    lemma_among(y, false, d);
    lemma_in_either(first, second, d);
    lemma_in_either(first + second, third, d);
    lemma_in_either(first + second + third, fourth, d);
    assert(!Seq::<JumperDemand>::empty().contains(d));
}

} // verus!
