//! The router's model as records, one per line, fields between bars.
//!
//! Every list is written in the order in which it is kept, so that a different value can be told from a
//! different order.

use vstd::prelude::*;
use vstd::string::{StrSliceExecFns, StringExecFns};

use super::access::AccessPoint;
use super::design::{BoxOnLayer, CugrNet, CugrPin, Design, TechViaFacts};
use super::geo::{Interval, Point};
use super::grid_graph::{Flags, GridGraph};
use super::grnet::{ApChoice, GrNet, GrPoint};
use super::maze_route::{SparseGraph, SparseGrid};
use super::steiner::{is_acyclic, snodes, SteinerInput, SteinerNode, SteinerTree, TreeBranch};
use super::tree::{can_walk, places, GrTree, GrTreeNode};
use crate::grids::fits;
use crate::text::{dec, push_int, push_text, texts};

verus! {

// ---- lists ----

/// The first `n` numbers, a comma after each.
pub open spec fn list_text(v: Seq<i32>, n: int) -> Seq<char>
    decreases n,
{
    if n <= 0 { Seq::empty() } else { list_text(v, n - 1) + dec(v[n - 1] as int) + ","@ }
}

fn push_list(s: &mut String, v: &Vec<i32>)
    ensures
        final(s)@ == old(s)@ + list_text(v@, v@.len() as int),
{
    let ghost s0 = s@;
    let mut k: usize = 0;
    assert(s0 + list_text(v@, 0) =~= s0);
    while k < v.len()
        invariant
            k <= v@.len(),
            s@ == s0 + list_text(v@, k as int),
        decreases v@.len() - k,
    {
        push_int(s, v[k] as i64);
        s.append(",");
        k += 1;
        assert(s@ =~= s0 + list_text(v@, k as int));
    }
}

/// Numbers as text, a comma after each.
pub fn list(v: &Vec<i32>) -> (s: String)
    ensures
        s@ == list_text(v@, v@.len() as int),
{
    let mut s = String::from_str("");
    proof {
        reveal_strlit("");
    }
    push_list(&mut s, v);
    assert(s@ =~= list_text(v@, v@.len() as int));
    s
}

/// Numbers with a comma between them.
pub open spec fn with_commas(v: Seq<int>) -> Seq<char>
    decreases v.len(),
{
    if v.len() == 0 {
        Seq::empty()
    } else if v.len() == 1 {
        dec(v[0])
    } else {
        with_commas(v.drop_last()) + ","@ + dec(v.last())
    }
}

fn push_commas(s: &mut String, v: &[i64])
    requires
        forall|k: int| 0 <= k < v@.len() ==> #[trigger] v@[k] > i64::MIN,
    ensures
        final(s)@ == old(s)@ + with_commas(v@.map_values(|n: i64| n as int)),
{
    let ghost s0 = s@;
    let ghost w = v@.map_values(|n: i64| n as int);
    let mut k: usize = 0;
    assert(s0 + with_commas(w.take(0)) =~= s0);
    while k < v.len()
        invariant
            forall|k: int| 0 <= k < v@.len() ==> #[trigger] v@[k] > i64::MIN,
            k <= v@.len(),
            w == v@.map_values(|n: i64| n as int),
            s@ == s0 + with_commas(w.take(k as int)),
        decreases v@.len() - k,
    {
        assert(w.take(k + 1).drop_last() =~= w.take(k as int));
        if k > 0 {
            s.append(",");
        }
        push_int(s, v[k]);
        k += 1;
        assert(s@ =~= s0 + with_commas(w.take(k as int)));
    }
    assert(w.take(k as int) =~= w);
}

// ---- the design ----

/// The record of a start.
pub open spec fn init_text(min: int, max: int, clock_nets: int) -> Seq<char> {
    "VYGC|init|"@ + dec(min) + "|"@ + dec(max) + "|"@ + dec(clock_nets)
}

/// The record of a start: the routed layers and the number of clock nets.
pub fn init_record(min_routing_layer: i32, max_routing_layer: i32, clock_nets: u32) -> (s: String)
    ensures
        s@ == init_text(min_routing_layer as int, max_routing_layer as int, clock_nets as int),
{
    let mut s = String::from_str("VYGC|init|");
    push_int(&mut s, min_routing_layer as i64);
    s.append("|");
    push_int(&mut s, max_routing_layer as i64);
    s.append("|");
    push_int(&mut s, clock_nets as i64);
    s
}

/// Whether a design's lists are counted within the machine's range.
pub open spec fn design_counts(d: Design) -> bool {
    d.layers@.len() <= i64::MAX && d.nets@.len() <= i64::MAX && d.obstacles@.len() <= i64::MAX && d.num_special_nets <= i64::MAX
}

pub open spec fn design_text(d: Design) -> Seq<char> {
    "VYGC|design|dbu="@ + dec(d.dbu_per_micron as int) + "|die="@ + with_commas(seq![d.die.x.low as int, d.die.y.low as int, d.die.x.high as int, d.die.y.high as int]) + "|gcell="@
        + dec(d.gridline_spacing as int) + "|layers="@ + dec(d.layers@.len() as int) + "|nets="@ + dec(d.nets@.len() as int) + "|obstacles="@ + dec(d.obstacles@.len() as int)
        + "|special="@ + dec(d.num_special_nets as int)
}

/// The record of a design: its units, its die, its gcells and how much there is of everything.
pub fn design_record(d: &Design) -> (s: String)
    requires
        design_counts(*d),
    ensures
        s@ == design_text(*d),
{
    let mut s = String::from_str("VYGC|design|dbu=");
    push_int(&mut s, d.dbu_per_micron as i64);
    s.append("|die=");
    let die: [i64; 4] = [d.die.x.low as i64, d.die.y.low as i64, d.die.x.high as i64, d.die.y.high as i64];
    push_commas(&mut s, die.as_slice());
    assert(die@.map_values(|n: i64| n as int) =~= seq![d.die.x.low as int, d.die.y.low as int, d.die.x.high as int, d.die.y.high as int]);
    s.append("|gcell=");
    push_int(&mut s, d.gridline_spacing as i64);
    s.append("|layers=");
    push_int(&mut s, d.layers.len() as i64);
    s.append("|nets=");
    push_int(&mut s, d.nets.len() as i64);
    s.append("|obstacles=");
    push_int(&mut s, d.obstacles.len() as i64);
    s.append("|special=");
    push_int(&mut s, d.num_special_nets as i64);
    s
}

/// The text of one dimension's lines.
pub open spec fn lines_text(dim: int, lines: Seq<i32>) -> Seq<char> {
    "VYGC|gridlines|"@ + dec(dim) + "|"@ + dec(lines.len() as int) + "|"@ + list_text(lines, lines.len() as int)
}

/// The record of one dimension's gridlines.
pub fn gridlines_record(dim: u32, lines: &Vec<i32>) -> (s: String)
    requires
        lines@.len() <= i64::MAX,
    ensures
        s@ == lines_text(dim as int, lines@),
{
    let mut s = String::from_str("VYGC|gridlines|");
    push_int(&mut s, dim as i64);
    s.append("|");
    push_int(&mut s, lines.len() as i64);
    s.append("|");
    push_list(&mut s, lines);
    s
}

pub open spec fn obstacle_text(i: int, o: BoxOnLayer) -> Seq<char> {
    "VYGC|obs|"@ + dec(i) + "|"@ + dec(o.layer as int) + "|"@ + dec(o.b.x.low as int) + "|"@ + dec(o.b.y.low as int) + "|"@ + dec(o.b.x.high as int) + "|"@ + dec(o.b.y.high as int)
}

/// The record of an obstacle.
pub fn obstacle_record(i: u32, o: &BoxOnLayer) -> (s: String)
    ensures
        s@ == obstacle_text(i as int, *o),
{
    let mut s = String::from_str("VYGC|obs|");
    push_int(&mut s, i as i64);
    s.append("|");
    push_int(&mut s, o.layer as i64);
    s.append("|");
    push_int(&mut s, o.b.x.low as i64);
    s.append("|");
    push_int(&mut s, o.b.y.low as i64);
    s.append("|");
    push_int(&mut s, o.b.x.high as i64);
    s.append("|");
    push_int(&mut s, o.b.y.high as i64);
    s
}

pub open spec fn net_text(n: CugrNet) -> Seq<char> {
    "VYGC|dnet|"@ + dec(n.index as int) + "|"@ + n.name@ + "|pins="@ + dec(n.pins@.len() as int) + "|layers="@ + dec(n.layer_range.min_layer as int) + ","@
        + dec(n.layer_range.max_layer as int)
}

/// The first `n` boxes, a semicolon after each.
pub open spec fn shapes_text(v: Seq<BoxOnLayer>, n: int) -> Seq<char>
    decreases n,
{
    if n <= 0 {
        Seq::empty()
    } else {
        let b = v[n - 1].b;
        shapes_text(v, n - 1) + dec(v[n - 1].layer as int) + ":"@ + with_commas(seq![b.x.low as int, b.y.low as int, b.x.high as int, b.y.high as int]) + ";"@
    }
}

pub open spec fn pin_text(net: int, p: CugrPin) -> Seq<char> {
    "VYGC|dpin|"@ + dec(net) + "|"@ + dec(p.index as int) + "|"@ + (if p.is_port { "B"@ } else { "I"@ }) + "|"@ + p.name@ + "|"@ + shapes_text(p.shapes@, p.shapes@.len() as int)
}

fn push_shapes(s: &mut String, v: &Vec<BoxOnLayer>)
    ensures
        final(s)@ == old(s)@ + shapes_text(v@, v@.len() as int),
{
    let ghost s0 = s@;
    let mut k: usize = 0;
    assert(s0 + shapes_text(v@, 0) =~= s0);
    while k < v.len()
        invariant
            k <= v@.len(),
            s@ == s0 + shapes_text(v@, k as int),
        decreases v@.len() - k,
    {
        push_int(s, v[k].layer as i64);
        s.append(":");
        let b = v[k].b;
        let sides: [i64; 4] = [b.x.low as i64, b.y.low as i64, b.x.high as i64, b.y.high as i64];
        push_commas(s, sides.as_slice());
        assert(sides@.map_values(|n: i64| n as int) =~= seq![b.x.low as int, b.y.low as int, b.x.high as int, b.y.high as int]);
        s.append(";");
        k += 1;
        assert(s@ =~= s0 + shapes_text(v@, k as int));
    }
}

/// Whether a net and its pins are counted within the machine's range.
pub open spec fn net_counts(n: CugrNet) -> bool {
    n.index <= i64::MAX && n.pins@.len() <= i64::MAX && forall|k: int| 0 <= k < n.pins@.len() ==> (#[trigger] n.pins@[k]).index <= i64::MAX
}

/// The records of a net and its first `k` pins.
pub open spec fn net_records_upto(n: CugrNet, k: int) -> Seq<Seq<char>>
    decreases k,
{
    if k <= 0 { seq![net_text(n)] } else { net_records_upto(n, k - 1).push(pin_text(n.index as int, n.pins@[k - 1])) }
}

/// Adds the records of a net and its pins.
pub fn net_records(out: &mut Vec<String>, n: &CugrNet)
    requires
        net_counts(*n),
    ensures
        texts(final(out)@) == texts(old(out)@) + net_records_upto(*n, n.pins@.len() as int),
{
    let ghost out0 = texts(out@);
    let mut s = String::from_str("VYGC|dnet|");
    push_int(&mut s, n.index as i64);
    s.append("|");
    s.append(n.name.as_str());
    s.append("|pins=");
    push_int(&mut s, n.pins.len() as i64);
    s.append("|layers=");
    push_int(&mut s, n.layer_range.min_layer as i64);
    s.append(",");
    push_int(&mut s, n.layer_range.max_layer as i64);
    push_text(out, s);
    assert(texts(out@) =~= out0 + net_records_upto(*n, 0));
    let mut k: usize = 0;
    while k < n.pins.len()
        invariant
            net_counts(*n),
            k <= n.pins@.len(),
            texts(out@) == out0 + net_records_upto(*n, k as int),
        decreases n.pins@.len() - k,
    {
        let p = &n.pins[k];
        assert(n.pins@[k as int].index <= i64::MAX);
        let mut s = String::from_str("VYGC|dpin|");
        push_int(&mut s, n.index as i64);
        s.append("|");
        push_int(&mut s, p.index as i64);
        s.append("|");
        s.append(if p.is_port { "B" } else { "I" });
        s.append("|");
        s.append(p.name.as_str());
        s.append("|");
        push_shapes(&mut s, &p.shapes);
        push_text(out, s);
        k += 1;
        assert(texts(out@) =~= out0 + net_records_upto(*n, k as int));
    }
}

// ---- the grid ----

/// Whether a grid is counted within the machine's range.
pub open spec fn grid_counts(g: GridGraph) -> bool {
    g.x_size <= i64::MAX && g.y_size <= i64::MAX && g.num_layers <= i64::MAX && g.min_routing_layer <= i64::MAX
}

pub open spec fn grid_text(g: GridGraph) -> Seq<char> {
    "VYGC|grid|x="@ + dec(g.x_size as int) + "|y="@ + dec(g.y_size as int) + "|layers="@ + dec(g.num_layers as int) + "|m2pitch="@ + dec(g.m2_pitch as int) + "|minlayer="@
        + dec(g.min_routing_layer as int)
}

/// The record of a grid.
pub fn grid_record(g: &GridGraph) -> (s: String)
    requires
        grid_counts(*g),
    ensures
        s@ == grid_text(*g),
{
    let mut s = String::from_str("VYGC|grid|x=");
    push_int(&mut s, g.x_size as i64);
    s.append("|y=");
    push_int(&mut s, g.y_size as i64);
    s.append("|layers=");
    push_int(&mut s, g.num_layers as i64);
    s.append("|m2pitch=");
    push_int(&mut s, g.m2_pitch as i64);
    s.append("|minlayer=");
    push_int(&mut s, g.min_routing_layer as i64);
    s
}

/// A kind of record with a number and a list.
pub open spec fn numbered_list_text(kind: Seq<char>, i: int, v: Seq<i32>) -> Seq<char> {
    "VYGC|"@ + kind + "|"@ + dec(i) + "|"@ + list_text(v, v.len() as int)
}

/// The record of one dimension's gcell middles, or of one layer's tracks.
pub fn numbered_list_record(kind: &str, i: u32, v: &Vec<i32>) -> (s: String)
    ensures
        s@ == numbered_list_text(kind@, i as int, v@),
{
    let mut s = String::from_str("VYGC|");
    s.append(kind);
    s.append("|");
    push_int(&mut s, i as i64);
    s.append("|");
    push_list(&mut s, v);
    s
}

/// The first `n` flags, 1 for one that is set.
pub open spec fn flags_text(v: Seq<bool>, n: int) -> Seq<char>
    decreases n,
{
    if n <= 0 { Seq::empty() } else { flags_text(v, n - 1) + (if v[n - 1] { "1"@ } else { "0"@ }) }
}

/// The record of one column of the congestion view.
pub open spec fn column_text(d: int, x: int, v: Seq<bool>) -> Seq<char> {
    "VYGC|cgv|"@ + dec(d) + "|"@ + dec(x) + "|"@ + flags_text(v, v.len() as int)
}

/// The record of one column of the congestion view: which of its edges are congested.
pub fn congestion_record(d: u32, x: u32, v: &Vec<bool>) -> (s: String)
    ensures
        s@ == column_text(d as int, x as int, v@),
{
    let mut s = String::from_str("VYGC|cgv|");
    push_int(&mut s, d as i64);
    s.append("|");
    push_int(&mut s, x as i64);
    s.append("|");
    let ghost s0 = s@;
    let mut k: usize = 0;
    assert(s0 + flags_text(v@, 0) =~= s0);
    while k < v.len()
        invariant
            k <= v@.len(),
            s@ == s0 + flags_text(v@, k as int),
        decreases v@.len() - k,
    {
        s.append(if v[k] { "1" } else { "0" });
        k += 1;
        assert(s@ =~= s0 + flags_text(v@, k as int));
    }
    s
}

// ---- the nets ----

/// Whether a net is counted within the machine's range.
pub open spec fn grnet_counts(n: GrNet) -> bool {
    &&& n.index <= i64::MAX
    &&& n.pin_access_points@.len() <= i64::MAX
    &&& fits(n.bounding_box.x.length()) && fits(n.bounding_box.y.length()) && fits(n.bounding_box.x.length() + n.bounding_box.y.length())
}

pub open spec fn grnet_text(n: GrNet) -> Seq<char> {
    let b = n.bounding_box;
    "VYGC|grnet|"@ + dec(n.index as int) + "|"@ + n.name@ + "|pins="@ + dec(n.pin_access_points@.len() as int) + "|driver="@ + dec(n.driver_pin_index as int) + "|bbox="@
        + with_commas(seq![b.x.low as int, b.y.low as int, b.x.high as int, b.y.high as int]) + "|hp="@ + dec(b.x.length() + b.y.length())
}

/// The record of a net: its pins, its driver and the box around it.
pub fn grnet_record(n: &GrNet) -> (s: String)
    requires
        grnet_counts(*n),
    ensures
        s@ == grnet_text(*n),
{
    let b = n.bounding_box;
    let mut s = String::from_str("VYGC|grnet|");
    push_int(&mut s, n.index as i64);
    s.append("|");
    s.append(n.name.as_str());
    s.append("|pins=");
    push_int(&mut s, n.num_pins() as i64);
    s.append("|driver=");
    push_int(&mut s, n.driver_pin_index as i64);
    s.append("|bbox=");
    let sides: [i64; 4] = [b.x.low as i64, b.y.low as i64, b.x.high as i64, b.y.high as i64];
    push_commas(&mut s, sides.as_slice());
    assert(sides@.map_values(|n: i64| n as int) =~= seq![b.x.low as int, b.y.low as int, b.x.high as int, b.y.high as int]);
    s.append("|hp=");
    push_int(&mut s, b.hp() as i64);
    s
}

/// The first `n` access points, a semicolon after each.
pub open spec fn points_text(v: Seq<GrPoint>, n: int) -> Seq<char>
    decreases n,
{
    if n <= 0 {
        Seq::empty()
    } else {
        points_text(v, n - 1) + dec(v[n - 1].layer as int) + ":"@ + dec(v[n - 1].p.x as int) + ":"@ + dec(v[n - 1].p.y as int) + ";"@
    }
}

pub open spec fn access_text(net: int, pin: int, v: Seq<GrPoint>) -> Seq<char> {
    "VYGC|pap|"@ + dec(net) + "|"@ + dec(pin) + "|"@ + points_text(v, v.len() as int)
}

/// The record of a pin's access points.
pub fn access_record(net: u32, pin: u32, v: &Vec<GrPoint>) -> (s: String)
    ensures
        s@ == access_text(net as int, pin as int, v@),
{
    let mut s = String::from_str("VYGC|pap|");
    push_int(&mut s, net as i64);
    s.append("|");
    push_int(&mut s, pin as i64);
    s.append("|");
    let ghost s0 = s@;
    let mut k: usize = 0;
    assert(s0 + points_text(v@, 0) =~= s0);
    while k < v.len()
        invariant
            k <= v@.len(),
            s@ == s0 + points_text(v@, k as int),
        decreases v@.len() - k,
    {
        push_int(&mut s, v[k].layer as i64);
        s.append(":");
        push_int(&mut s, v[k].p.x as i64);
        s.append(":");
        push_int(&mut s, v[k].p.y as i64);
        s.append(";");
        k += 1;
        assert(s@ =~= s0 + points_text(v@, k as int));
    }
    s
}

// ---- a net's route ----

/// The record of a pin's chosen cell and layers.
pub open spec fn preferred_text(net: int, pin: int, p: Point, layers: Interval) -> Seq<char> {
    "VYGC|pref|"@ + dec(net) + "|"@ + dec(pin) + "|"@ + dec(p.x as int) + "|"@ + dec(p.y as int) + "|"@ + dec(layers.low as int) + "|"@ + dec(layers.high as int)
}

/// The record of a pin's chosen cell and layers.
pub fn preferred_record(net: u32, pin: u32, p: Point, layers: Interval) -> (s: String)
    ensures
        s@ == preferred_text(net as int, pin as int, p, layers),
{
    let mut s = String::from_str("VYGC|pref|");
    push_int(&mut s, net as i64);
    s.append("|");
    push_int(&mut s, pin as i64);
    s.append("|");
    push_int(&mut s, p.x as i64);
    s.append("|");
    push_int(&mut s, p.y as i64);
    s.append("|");
    push_int(&mut s, layers.low as i64);
    s.append("|");
    push_int(&mut s, layers.high as i64);
    s
}

/// The record of a cell that a net is reached at.
pub open spec fn selected_text(net: int, a: AccessPoint) -> Seq<char> {
    "VYGC|sel|"@ + dec(net) + "|"@ + dec(a.p.x as int) + "|"@ + dec(a.p.y as int) + "|"@ + dec(a.layers.low as int) + "|"@ + dec(a.layers.high as int)
}

/// The record of a cell that a net is reached at.
pub fn selected_record(net: u32, a: &AccessPoint) -> (s: String)
    ensures
        s@ == selected_text(net as int, *a),
{
    let mut s = String::from_str("VYGC|sel|");
    push_int(&mut s, net as i64);
    s.append("|");
    push_int(&mut s, a.p.x as i64);
    s.append("|");
    push_int(&mut s, a.p.y as i64);
    s.append("|");
    push_int(&mut s, a.layers.low as i64);
    s.append("|");
    push_int(&mut s, a.layers.high as i64);
    s
}

/// The first `n` cells that a tree builder is asked about, a semicolon after each.
pub open spec fn cells_text(xs: Seq<i32>, ys: Seq<i32>, n: int) -> Seq<char>
    decreases n,
{
    if n <= 0 { Seq::empty() } else { cells_text(xs, ys, n - 1) + dec(xs[n - 1] as int) + ","@ + dec(ys[n - 1] as int) + ";"@ }
}

pub open spec fn input_text(net: int, i: SteinerInput) -> Seq<char> {
    "VYGC|sttin|"@ + dec(net) + "|"@ + dec(i.driver_index as int) + "|"@ + cells_text(i.xs@, i.ys@, i.xs@.len() as int)
}

/// The record of what a tree builder is asked.
pub fn input_record(net: u32, i: &SteinerInput) -> (s: String)
    requires
        i.xs@.len() == i.ys@.len(),
        i.driver_index <= i64::MAX,
    ensures
        s@ == input_text(net as int, *i),
{
    let mut s = String::from_str("VYGC|sttin|");
    push_int(&mut s, net as i64);
    s.append("|");
    push_int(&mut s, i.driver_index as i64);
    s.append("|");
    let ghost s0 = s@;
    let mut k: usize = 0;
    assert(s0 + cells_text(i.xs@, i.ys@, 0) =~= s0);
    while k < i.xs.len()
        invariant
            i.xs@.len() == i.ys@.len(),
            k <= i.xs@.len(),
            s@ == s0 + cells_text(i.xs@, i.ys@, k as int),
        decreases i.xs@.len() - k,
    {
        push_int(&mut s, i.xs[k] as i64);
        s.append(",");
        push_int(&mut s, i.ys[k] as i64);
        s.append(";");
        k += 1;
        assert(s@ =~= s0 + cells_text(i.xs@, i.ys@, k as int));
    }
    s
}

/// The first `n` branches, a semicolon after each.
pub open spec fn branches_text(v: Seq<TreeBranch>, n: int) -> Seq<char>
    decreases n,
{
    if n <= 0 {
        Seq::empty()
    } else {
        branches_text(v, n - 1) + dec(n - 1) + ":"@ + dec(v[n - 1].x as int) + ","@ + dec(v[n - 1].y as int) + ","@ + dec(v[n - 1].n as int) + ";"@
    }
}

pub open spec fn tree_input_text(net: int, v: Seq<TreeBranch>) -> Seq<char> {
    "VYGC|stt|"@ + dec(net) + "|"@ + branches_text(v, v.len() as int)
}

/// The record of the branches that a tree builder gave.
pub fn branches_record(net: u32, v: &Vec<TreeBranch>) -> (s: String)
    requires
        v@.len() <= i64::MAX,
        forall|k: int| 0 <= k < v@.len() ==> (#[trigger] v@[k]).n <= i64::MAX,
    ensures
        s@ == tree_input_text(net as int, v@),
{
    let mut s = String::from_str("VYGC|stt|");
    push_int(&mut s, net as i64);
    s.append("|");
    let ghost s0 = s@;
    let mut k: usize = 0;
    assert(s0 + branches_text(v@, 0) =~= s0);
    while k < v.len()
        invariant
            v@.len() <= i64::MAX,
            forall|k: int| 0 <= k < v@.len() ==> (#[trigger] v@[k]).n <= i64::MAX,
            k <= v@.len(),
            s@ == s0 + branches_text(v@, k as int),
        decreases v@.len() - k,
    {
        assert(v@[k as int].n <= i64::MAX);
        push_int(&mut s, k as i64);
        s.append(":");
        push_int(&mut s, v[k].x as i64);
        s.append(",");
        push_int(&mut s, v[k].y as i64);
        s.append(",");
        push_int(&mut s, v[k].n as i64);
        s.append(";");
        k += 1;
        assert(s@ =~= s0 + branches_text(v@, k as int));
    }
    s
}

/// The first `n` nodes of a walk over a Steiner tree, a semicolon after each.
pub open spec fn steiner_text(nodes: Seq<SteinerNode>, walk: Seq<int>, n: int) -> Seq<char>
    decreases n,
{
    if n <= 0 {
        Seq::empty()
    } else {
        let s = nodes[walk[n - 1]];
        steiner_text(nodes, walk, n - 1) + with_commas(seq![s.p.x as int, s.p.y as int, s.fixed.low as int, s.fixed.high as int, s.children@.len() as int]) + ";"@
    }
}

/// A Steiner tree's nodes as text, each before its children: place, layers and number of children.
pub fn steiner_nodes(t: &SteinerTree) -> (s: String)
    requires
        is_acyclic(snodes(t.nodes@)),
        t.root < t.nodes@.len(),
        forall|k: int| 0 <= k < t.nodes@.len() ==> (#[trigger] t.nodes@[k]).children@.len() <= i64::MAX,
    ensures
        s@ == steiner_text(t.nodes@, t.walk(), t.walk().len() as int),
{
    let order = t.preorder();
    let ghost walk = t.walk();
    let mut s = String::from_str("");
    proof {
        reveal_strlit("");
    }
    let mut k: usize = 0;
    assert(s@ =~= steiner_text(t.nodes@, walk, 0));
    while k < order.len()
        invariant
            forall|k: int| 0 <= k < t.nodes@.len() ==> (#[trigger] t.nodes@[k]).children@.len() <= i64::MAX,
            forall|i: int| 0 <= i < order@.len() ==> #[trigger] order@[i] < t.nodes@.len(),
            order@.map_values(|n: usize| n as int) == walk,
            k <= order@.len(),
            s@ == steiner_text(t.nodes@, walk, k as int),
        decreases order@.len() - k,
    {
        assert(order@[k as int] < t.nodes@.len());
        assert(walk[k as int] == order@[k as int]);
        let n = &t.nodes[order[k]];
        let fields: [i64; 5] = [n.p.x as i64, n.p.y as i64, n.fixed.low as i64, n.fixed.high as i64, n.children.len() as i64];
        push_commas(&mut s, fields.as_slice());
        assert(fields@.map_values(|n: i64| n as int) =~= seq![n.p.x as int, n.p.y as int, n.fixed.low as int, n.fixed.high as int, n.children@.len() as int]);
        s.append(";");
        k += 1;
        assert(s@ =~= steiner_text(t.nodes@, walk, k as int));
    }
    s
}

/// The first `n` nodes of a walk over a routed tree, a semicolon after each.
pub open spec fn route_text(nodes: Seq<GrTreeNode>, walk: Seq<int>, n: int) -> Seq<char>
    decreases n,
{
    if n <= 0 {
        Seq::empty()
    } else {
        let t = nodes[walk[n - 1]];
        route_text(nodes, walk, n - 1) + dec(t.layer as int) + ":"@ + dec(t.p.x as int) + ":"@ + dec(t.p.y as int) + ":"@ + dec(t.children@.len() as int) + ";"@
    }
}

pub open spec fn tree_text(stage: int, net: int, t: GrTree) -> Seq<char> {
    "VYGC|tree|"@ + dec(stage) + "|"@ + dec(net) + "|"@ + route_text(t.nodes@, t.walk(), t.walk().len() as int)
}

/// The record of a net's routed tree, each node before its children: layer, place and number of children.
pub fn tree_record(stage: i32, net: u32, t: &GrTree) -> (s: String)
    requires
        can_walk(t.nodes@),
        forall|k: int| 0 <= k < t.nodes@.len() ==> (#[trigger] t.nodes@[k]).children@.len() <= i64::MAX,
    ensures
        s@ == tree_text(stage as int, net as int, *t),
{
    let order = t.preorder();
    let ghost walk = t.walk();
    let mut s = String::from_str("VYGC|tree|");
    push_int(&mut s, stage as i64);
    s.append("|");
    push_int(&mut s, net as i64);
    s.append("|");
    let ghost s0 = s@;
    let mut k: usize = 0;
    assert(s0 + route_text(t.nodes@, walk, 0) =~= s0);
    while k < order.len()
        invariant
            forall|k: int| 0 <= k < t.nodes@.len() ==> (#[trigger] t.nodes@[k]).children@.len() <= i64::MAX,
            forall|i: int| 0 <= i < order@.len() ==> #[trigger] order@[i] < t.nodes@.len(),
            places(order@) == walk,
            k <= order@.len(),
            s@ == s0 + route_text(t.nodes@, walk, k as int),
        decreases order@.len() - k,
    {
        assert(order@[k as int] < t.nodes@.len());
        assert(places(order@)[k as int] == order@[k as int]);
        let n = &t.nodes[order[k]];
        push_int(&mut s, n.layer as i64);
        s.append(":");
        push_int(&mut s, n.p.x as i64);
        s.append(":");
        push_int(&mut s, n.p.y as i64);
        s.append(":");
        push_int(&mut s, n.children.len() as i64);
        s.append(";");
        k += 1;
        assert(s@ =~= s0 + route_text(t.nodes@, walk, k as int));
    }
    s
}


/// The records of the first `n` columns of one plane of the congestion view.
pub open spec fn plane_records(d: int, v: Seq<Vec<bool>>, n: int) -> Seq<Seq<char>>
    decreases n,
{
    if n <= 0 { Seq::empty() } else { plane_records(d, v, n - 1).push(column_text(d, n - 1, v[n - 1]@)) }
}

/// The records of the first `n` planes of the congestion view.
pub open spec fn view_records(v: Seq<Vec<Vec<bool>>>, n: int) -> Seq<Seq<char>>
    decreases n,
{
    if n <= 0 { Seq::empty() } else { view_records(v, n - 1) + plane_records(n - 1, v[n - 1]@, v[n - 1]@.len() as int) }
}

/// Adds the records of the congestion view, a column at a time.
pub fn congestion_view(out: &mut Vec<String>, view: &Flags)
    requires
        view@.len() <= u32::MAX,
        forall|d: int| 0 <= d < view@.len() ==> (#[trigger] view@[d])@.len() <= u32::MAX,
    ensures
        texts(final(out)@) == texts(old(out)@) + view_records(view@, view@.len() as int),
{
    let ghost out0 = texts(out@);
    let mut d: usize = 0;
    assert(texts(out@) =~= out0 + view_records(view@, 0));
    while d < view.len()
        invariant
            view@.len() <= u32::MAX,
            forall|d: int| 0 <= d < view@.len() ==> (#[trigger] view@[d])@.len() <= u32::MAX,
            d <= view@.len(),
            texts(out@) == out0 + view_records(view@, d as int),
        decreases view@.len() - d,
    {
        let ghost before = texts(out@);
        let mut x: usize = 0;
        assert(view@[d as int]@.len() <= u32::MAX);
        assert(texts(out@) =~= before + plane_records(d as int, view@[d as int]@, 0));
        while x < view[d].len()
            invariant
                d < view@.len() <= u32::MAX,
                view@[d as int]@.len() <= u32::MAX,
                x <= view@[d as int]@.len(),
                texts(out@) == before + plane_records(d as int, view@[d as int]@, x as int),
            decreases view@[d as int]@.len() - x,
        {
            push_text(out, congestion_record(d as u32, x as u32, &view[d][x]));
            x += 1;
            assert(texts(out@) =~= before + plane_records(d as int, view@[d as int]@, x as int));
        }
        d += 1;
        assert(texts(out@) =~= out0 + view_records(view@, d as int));
    }
}


// ---- choices ----

/// The record of the via chosen between a layer and the next: its name, or a dash.
pub open spec fn via_text(i: int, name: Option<Seq<char>>) -> Seq<char> {
    "VYGC|via|"@ + dec(i) + "|"@ + (match name {
        Some(n) => n,
        None => "-"@,
    })
}

/// The name of a via of a list.
pub open spec fn via_name(vias: Seq<TechViaFacts>, at: Option<usize>) -> Option<Seq<char>> {
    match at {
        Some(k) => Some(vias[k as int].name@),
        None => None,
    }
}

/// The records of the first `n` vias chosen.
pub open spec fn via_records_upto(vias: Seq<TechViaFacts>, chosen: Seq<Option<usize>>, n: int) -> Seq<Seq<char>>
    decreases n,
{
    if n <= 0 { Seq::empty() } else { via_records_upto(vias, chosen, n - 1).push(via_text(n - 1, via_name(vias, chosen[n - 1]))) }
}

/// Adds the records of the vias chosen, by the lower layer.
pub fn via_records(out: &mut Vec<String>, vias: &Vec<TechViaFacts>, chosen: &Vec<Option<usize>>)
    requires
        chosen@.len() <= i64::MAX,
        forall|k: int| 0 <= k < chosen@.len() ==> (#[trigger] chosen@[k] matches Some(at) ==> at < vias@.len()),
    ensures
        texts(final(out)@) == texts(old(out)@) + via_records_upto(vias@, chosen@, chosen@.len() as int),
{
    let ghost out0 = texts(out@);
    let mut k: usize = 0;
    assert(texts(out@) =~= out0 + via_records_upto(vias@, chosen@, 0));
    while k < chosen.len()
        invariant
            chosen@.len() <= i64::MAX,
            forall|k: int| 0 <= k < chosen@.len() ==> (#[trigger] chosen@[k] matches Some(at) ==> at < vias@.len()),
            k <= chosen@.len(),
            texts(out@) == out0 + via_records_upto(vias@, chosen@, k as int),
        decreases chosen@.len() - k,
    {
        let mut s = String::from_str("VYGC|via|");
        push_int(&mut s, k as i64);
        s.append("|");
        match chosen[k] {
            Some(at) => {
                s.append(vias[at].name.as_str());
            },
            None => {
                s.append("-");
            },
        }
        assert(s@ == via_text(k as int, via_name(vias@, chosen@[k as int])));
        push_text(out, s);
        k += 1;
        assert(texts(out@) =~= out0 + via_records_upto(vias@, chosen@, k as int));
    }
}

/// The record of the points that a detailed router gives a pin: none.
pub open spec fn no_points_text(net: int, pin: int) -> Seq<char> {
    "VYGC|odbap|"@ + dec(net) + "|"@ + dec(pin) + "|0|"@
}

/// The record of how a pin's cell was chosen.
pub open spec fn choice_text(net: int, c: ApChoice) -> Seq<char> {
    "VYGC|shapeap|"@ + dec(net) + "|"@ + dec(c.pin as int) + "|"@ + dec(c.index as int) + "|"@ + dec(c.accessibility as int) + "|"@ + dec(c.distance as int) + "|center="@
        + dec(c.center.x as int) + ","@ + dec(c.center.y as int)
}

/// The records of the points of the first `n` pins.
pub open spec fn no_points_upto(net: int, n: int) -> Seq<Seq<char>>
    decreases n,
{
    if n <= 0 { Seq::empty() } else { no_points_upto(net, n - 1).push(no_points_text(net, n - 1)) }
}

/// The records of the first `n` choices.
pub open spec fn choices_upto(net: int, v: Seq<ApChoice>, n: int) -> Seq<Seq<char>>
    decreases n,
{
    if n <= 0 { Seq::empty() } else { choices_upto(net, v, n - 1).push(choice_text(net, v[n - 1])) }
}

/// Whether a choice is counted within the machine's range.
pub open spec fn choice_counts(c: ApChoice) -> bool {
    c.pin <= i64::MAX && c.index <= i64::MAX && c.distance > i64::MIN
}

fn choice_record(net: u32, c: &ApChoice) -> (s: String)
    requires
        choice_counts(*c),
    ensures
        s@ == choice_text(net as int, *c),
{
    let mut s = String::from_str("VYGC|shapeap|");
    push_int(&mut s, net as i64);
    s.append("|");
    push_int(&mut s, c.pin as i64);
    s.append("|");
    push_int(&mut s, c.index as i64);
    s.append("|");
    push_int(&mut s, c.accessibility as i64);
    s.append("|");
    push_int(&mut s, c.distance);
    s.append("|center=");
    push_int(&mut s, c.center.x as i64);
    s.append(",");
    push_int(&mut s, c.center.y as i64);
    s
}

/// Adds the records of a net's access: for every pin that a detailed router gave it no points, then how each
/// cell was chosen from the shapes.
pub fn choice_records(out: &mut Vec<String>, net: u32, num_pins: usize, choices: &Vec<ApChoice>)
    requires
        num_pins <= i64::MAX,
        forall|k: int| 0 <= k < choices@.len() ==> choice_counts(#[trigger] choices@[k]),
    ensures
        texts(final(out)@) == texts(old(out)@) + no_points_upto(net as int, num_pins as int) + choices_upto(net as int, choices@, choices@.len() as int),
{
    let ghost out0 = texts(out@);
    let mut k: usize = 0;
    assert(texts(out@) =~= out0 + no_points_upto(net as int, 0));
    while k < num_pins
        invariant
            num_pins <= i64::MAX,
            k <= num_pins,
            texts(out@) == out0 + no_points_upto(net as int, k as int),
        decreases num_pins - k,
    {
        let mut s = String::from_str("VYGC|odbap|");
        push_int(&mut s, net as i64);
        s.append("|");
        push_int(&mut s, k as i64);
        s.append("|0|");
        push_text(out, s);
        k += 1;
        assert(texts(out@) =~= out0 + no_points_upto(net as int, k as int));
    }
    let ghost out1 = texts(out@);
    let mut i: usize = 0;
    assert(texts(out@) =~= out1 + choices_upto(net as int, choices@, 0));
    while i < choices.len()
        invariant
            forall|k: int| 0 <= k < choices@.len() ==> choice_counts(#[trigger] choices@[k]),
            i <= choices@.len(),
            texts(out@) == out1 + choices_upto(net as int, choices@, i as int),
        decreases choices@.len() - i,
    {
        let s = choice_record(net, &choices[i]);
        push_text(out, s);
        i += 1;
        assert(texts(out@) =~= out1 + choices_upto(net as int, choices@, i as int));
    }
}

// ---- trees ----

pub open spec fn steiner_record_text(net: int, t: SteinerTree) -> Seq<char> {
    "VYGC|steiner|"@ + dec(net) + "|"@ + dec(t.root_branch as int) + "|"@ + steiner_text(t.nodes@, t.walk(), t.walk().len() as int)
}

/// The record of a net's Steiner tree: the branch that it is rooted at, and its nodes.
pub fn steiner_record(net: u32, t: &SteinerTree) -> (s: String)
    requires
        is_acyclic(snodes(t.nodes@)),
        t.root < t.nodes@.len(),
        t.root_branch <= i64::MAX,
        forall|k: int| 0 <= k < t.nodes@.len() ==> (#[trigger] t.nodes@[k]).children@.len() <= i64::MAX,
    ensures
        s@ == steiner_record_text(net as int, *t),
{
    let mut s = String::from_str("VYGC|steiner|");
    push_int(&mut s, net as i64);
    s.append("|");
    push_int(&mut s, t.root_branch as i64);
    s.append("|");
    let nodes = steiner_nodes(t);
    s.append(nodes.as_str());
    s
}

/// The first `n` cells with their layers, a semicolon after each.
pub open spec fn cells_and_layers_text(v: Seq<AccessPoint>, n: int) -> Seq<char>
    decreases n,
{
    if n <= 0 {
        Seq::empty()
    } else {
        let a = v[n - 1];
        cells_and_layers_text(v, n - 1) + with_commas(seq![a.p.x as int, a.p.y as int, a.layers.low as int, a.layers.high as int]) + ";"@
    }
}

pub open spec fn sparse_text(net: int, offset: Point, xs: Seq<i32>, ys: Seq<i32>, pins: Seq<AccessPoint>) -> Seq<char> {
    "VYGC|sparse|"@ + dec(net) + "|off="@ + dec(offset.x as int) + ","@ + dec(offset.y as int) + "|xs="@ + list_text(xs, xs.len() as int) + "|ys="@ + list_text(ys, ys.len() as int)
        + "|pins="@ + cells_and_layers_text(pins, pins.len() as int)
}

/// The record of a net's sparse graph: the offset of its grid, its columns, its rows and its cells.
pub fn sparse_record<C>(net: u32, grid: &SparseGrid, g: &SparseGraph<C>) -> (s: String)
    ensures
        s@ == sparse_text(net as int, grid.offset, g.xs@, g.ys@, g.pseudo_pins@),
{
    let mut s = String::from_str("VYGC|sparse|");
    push_int(&mut s, net as i64);
    s.append("|off=");
    push_int(&mut s, grid.offset.x as i64);
    s.append(",");
    push_int(&mut s, grid.offset.y as i64);
    s.append("|xs=");
    push_list(&mut s, &g.xs);
    s.append("|ys=");
    push_list(&mut s, &g.ys);
    s.append("|pins=");
    let ghost s0 = s@;
    let ghost pins = g.pseudo_pins@;
    let mut k: usize = 0;
    assert(s0 + cells_and_layers_text(pins, 0) =~= s0);
    while k < g.pseudo_pins.len()
        invariant
            pins == g.pseudo_pins@,
            k <= pins.len(),
            s@ == s0 + cells_and_layers_text(pins, k as int),
        decreases pins.len() - k,
    {
        let a = &g.pseudo_pins[k];
        let fields: [i64; 4] = [a.p.x as i64, a.p.y as i64, a.layers.low as i64, a.layers.high as i64];
        push_commas(&mut s, fields.as_slice());
        assert(fields@.map_values(|n: i64| n as int) =~= seq![a.p.x as int, a.p.y as int, a.layers.low as int, a.layers.high as int]);
        s.append(";");
        k += 1;
        assert(s@ =~= s0 + cells_and_layers_text(pins, k as int));
    }
    s
}

pub open spec fn maze_tree_text(net: int, t: SteinerTree) -> Seq<char> {
    "VYGC|mazetree|"@ + dec(net) + "|"@ + steiner_text(t.nodes@, t.walk(), t.walk().len() as int)
}

/// Adds the record of the tree that was found in a sparse graph. A net of one cell has no search, and no record.
pub fn maze_tree_record(out: &mut Vec<String>, net: u32, num_cells: usize, t: &SteinerTree)
    requires
        is_acyclic(snodes(t.nodes@)),
        t.root < t.nodes@.len(),
        forall|k: int| 0 <= k < t.nodes@.len() ==> (#[trigger] t.nodes@[k]).children@.len() <= i64::MAX,
    ensures
        texts(final(out)@) == (if num_cells == 1 { texts(old(out)@) } else { texts(old(out)@).push(maze_tree_text(net as int, *t)) }),
{
    if num_cells == 1 {
        return;
    }
    let mut s = String::from_str("VYGC|mazetree|");
    push_int(&mut s, net as i64);
    s.append("|");
    let nodes = steiner_nodes(t);
    s.append(nodes.as_str());
    push_text(out, s);
}

// ---- after a change ----

/// A condition as a digit.
pub open spec fn digit_text(b: bool) -> Seq<char> {
    if b { "1"@ } else { "0"@ }
}

pub open spec fn dirty_text(name: Seq<char>, has_route: bool, moved: bool, reroute: bool) -> Seq<char> {
    "VYGC|dirty|"@ + name + "|route="@ + digit_text(has_route) + "|moved="@ + digit_text(moved) + "|reroute="@ + digit_text(reroute)
}

/// The record of a net that a change has touched: whether it has a route, whether its pins have moved, and
/// whether it is routed anew.
pub fn dirty_record(name: &str, has_route: bool, moved: bool, reroute: bool) -> (s: String)
    ensures
        s@ == dirty_text(name@, has_route, moved, reroute),
{
    let mut s = String::from_str("VYGC|dirty|");
    s.append(name);
    s.append("|route=");
    s.append(if has_route { "1" } else { "0" });
    s.append("|moved=");
    s.append(if moved { "1" } else { "0" });
    s.append("|reroute=");
    s.append(if reroute { "1" } else { "0" });
    s
}

} // verus!
