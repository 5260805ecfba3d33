//! The design as the router sees it: the routing layers, the nets and their pin shapes, every
//! obstacle, the gridlines, and how much of the tracks a via takes.

use crate::lists::{all_of, count_of, lemma_all_next, lemma_all_none, lemma_count_next, lemma_count_none, lemma_sum_next, lemma_sum_none, sum_of};
use vstd::prelude::*;
use vstd::string::StringExecFns;

use crate::callbacks::same_text;
use crate::cugr::geo::{BoxT, Interval};
use crate::cugr::layers::{ceil_div, is_layer_of, layer_fits, MetalLayer, MetalLayerFacts, H};

verus! {

/// A rectangle as the database gives it: `(x_min, y_min, x_max, y_max)`.
pub type Rect = (i32, i32, i32, i32);

/// A shape's layer.
#[derive(Debug, Clone, Copy, PartialEq, Eq, Structural)]
pub struct ShapeLayer {
    pub is_routing: bool,
    /// 0 for a layer that is not a routing layer.
    pub routing_level: i32,
}

/// A shape in design coordinates, and its layer, if any.
#[derive(Debug, Clone, Copy, PartialEq, Eq)]
pub struct Shape {
    pub layer: Option<ShapeLayer>,
    pub rect: Rect,
}

/// A layer of the technology.
#[derive(Debug)]
pub struct TechLayerFacts {
    pub name: String,
    pub is_routing: bool,
    pub routing_level: i32,
    /// The name of the cut layer above, empty when there is none.
    pub upper_layer: String,
    /// The layer's own facts; `None` when the block has no track grid for it.
    pub metal: Option<MetalLayerFacts>,
}

/// A via of the technology.
#[derive(Debug)]
pub struct TechViaFacts {
    pub name: String,
    pub bottom: String,
    pub top: String,
    /// Each box's layer name and rectangle.
    pub boxes: Vec<(String, Rect)>,
    pub or_default: bool,
    pub is_default: bool,
}

/// A terminal of a net.
#[derive(Debug)]
pub struct PinFacts {
    pub name: String,
    pub is_port: bool,
    /// Whether the terminal is placed. Always true for an instance's.
    pub has_location: bool,
    pub shapes: Vec<Shape>,
}

/// A net of the block.
#[derive(Debug)]
pub struct NetFacts {
    pub name: String,
    pub is_special: bool,
    pub is_supply: bool,
    pub has_swires: bool,
    pub connected_by_abutment: bool,
    pub is_clock: bool,
    /// Block terminals first, then instance terminals.
    pub pins: Vec<PinFacts>,
    pub wire_count: u32,
    /// The boxes of its special wires, each with whether it comes from a via.
    pub swire_boxes: Vec<(Shape, bool)>,
}

/// Everything that is read of a design.
#[derive(Debug)]
pub struct DesignFacts {
    pub dbu_per_micron: i32,
    pub die: Rect,
    pub gcell_tile_size: i32,
    pub layers: Vec<TechLayerFacts>,
    pub vias: Vec<TechViaFacts>,
    pub nets: Vec<NetFacts>,
    /// The pin boxes and the obstructions of every instance.
    pub instance_shapes: Vec<Shape>,
    pub design_obstructions: Vec<Shape>,
    pub min_layer_for_clock: i32,
    pub max_layer_for_clock: i32,
}

/// A box on a layer.
#[derive(Debug, Clone, Copy, PartialEq)]
pub struct BoxOnLayer {
    pub layer: i32,
    pub b: BoxT,
}

/// A pin of a routed net.
#[derive(Debug)]
pub struct CugrPin {
    pub index: usize,
    pub name: String,
    pub is_port: bool,
    pub shapes: Vec<BoxOnLayer>,
}

/// A range of layers, from 0.
#[derive(Debug, Clone, Copy, PartialEq, Eq, Structural)]
pub struct LayerRange {
    pub min_layer: i32,
    pub max_layer: i32,
}

/// A net that is routed.
#[derive(Debug)]
pub struct CugrNet {
    pub index: usize,
    pub name: String,
    pub pins: Vec<CugrPin>,
    pub layer_range: LayerRange,
    /// Its place in the list of the block's nets.
    pub facts_index: usize,
}

/// The design.
#[derive(Debug)]
pub struct Design {
    pub dbu_per_micron: i32,
    pub die: BoxT,
    pub layers: Vec<MetalLayer>,
    pub gridline_spacing: i32,
    /// The gridlines across x and across y.
    pub gridlines: Vec<Vec<i32>>,
    pub nets: Vec<CugrNet>,
    pub obstacles: Vec<BoxOnLayer>,
    pub num_special_nets: usize,
    /// The via chosen for each pair of layers, by its place in the list, if one connects it.
    pub pair_vias: Vec<Option<usize>>,
    pub via_demand_length_lower: Vec<i128>,
    pub via_demand_length_upper: Vec<i128>,
    pub wrong_way_demand_length: Vec<i128>,
}

/// A design that cannot be read.
#[derive(Debug)]
pub enum DesignError {
    /// A wire box of a special net is not on a routing layer.
    SpecialWireOffRoutingLayer { net: String },
    /// The unit costs read the second layer's pitch.
    TooFewLayers,
    /// The die is no wider than one gcell in a dimension.
    DieSmallerThanGcell,
}

// ---- what is read ----

pub open spec fn box_of_rect(r: Rect) -> BoxT {
    BoxT { x: Interval { low: r.0, high: r.2 }, y: Interval { low: r.1, high: r.3 } }
}

fn box_of(r: Rect) -> (b: BoxT)
    ensures
        b == box_of_rect(r),
{
    BoxT { x: Interval { low: r.0, high: r.2 }, y: Interval { low: r.1, high: r.3 } }
}

/// Whether a layer is kept: a routing layer at or below the top with a track grid.
pub open spec fn keeps_layer(l: TechLayerFacts, max_routing_layer: i32) -> bool {
    l.is_routing && l.routing_level <= max_routing_layer && l.metal is Some
}

/// Those of the first `n` layers that are kept, by place.
pub open spec fn kept_layers(layers: Seq<TechLayerFacts>, max_routing_layer: i32, n: int) -> Seq<int>
    decreases n,
{
    if n <= 0 {
        Seq::empty()
    } else {
        let s = kept_layers(layers, max_routing_layer, n - 1);
        if keeps_layer(layers[n - 1], max_routing_layer) { s.push(n - 1) } else { s }
    }
}

/// Whether the layers read are those kept.
pub open spec fn layers_read(f: DesignFacts, max_routing_layer: i32, layers: Seq<MetalLayer>) -> bool {
    let kept = kept_layers(f.layers@, max_routing_layer, f.layers@.len() as int);
    &&& layers.len() == kept.len()
    &&& forall|i: int| 0 <= i < layers.len() ==> is_layer_of(f.layers@[kept[i]].metal->0, #[trigger] layers[i])
}

/// A pin shape on its layer: one above the top layer goes to the top layer.
pub open spec fn pin_shape(s: Shape, layers: int) -> Option<BoxOnLayer> {
    match s.layer {
        Some(l) => if l.is_routing {
            let at = l.routing_level - 1;
            Some(BoxOnLayer { layer: (if at < layers - 1 { at } else { layers - 1 }) as i32, b: box_of_rect(s.rect) })
        } else {
            None
        },
        None => None,
    }
}

/// The first `n` shapes of a pin that are on routing layers.
pub open spec fn pin_shapes(shapes: Seq<Shape>, layers: int, n: int) -> Seq<BoxOnLayer>
    decreases n,
{
    if n <= 0 {
        Seq::empty()
    } else {
        let s = pin_shapes(shapes, layers, n - 1);
        match pin_shape(shapes[n - 1], layers) {
            Some(b) => s.push(b),
            None => s,
        }
    }
}

/// Whether a pin is the one that a terminal gives: without shapes where the terminal is not placed.
pub open spec fn is_pin_of(p: PinFacts, layers: int, index: int, r: CugrPin) -> bool {
    &&& r.index == index
    &&& r.name@ == p.name@
    &&& r.is_port == p.is_port
    &&& r.shapes@ == (if p.has_location { pin_shapes(p.shapes@, layers, p.shapes@.len() as int) } else { Seq::empty() })
}

/// Whether a net is routed: an ordinary one with two terminals at least.
pub open spec fn is_routed(n: NetFacts) -> bool {
    !n.is_special && !n.is_supply && !n.has_swires && !n.connected_by_abutment && n.pins@.len() >= 2
}

/// Those of the first `n` nets that are routed, by place.
pub open spec fn routed_nets(nets: Seq<NetFacts>, n: int) -> Seq<int>
    decreases n,
{
    if n <= 0 {
        Seq::empty()
    } else {
        let s = routed_nets(nets, n - 1);
        if is_routed(nets[n - 1]) { s.push(n - 1) } else { s }
    }
}

/// The layers of a net: a clock net takes those for clocks where both bounds are set.
pub open spec fn net_layers(f: DesignFacts, n: NetFacts, min_routing_layer: i32, max_routing_layer: i32) -> LayerRange {
    if n.is_clock && f.min_layer_for_clock > 0 && f.max_layer_for_clock > 0 {
        LayerRange { min_layer: (f.min_layer_for_clock - 1) as i32, max_layer: (f.max_layer_for_clock - 1) as i32 }
    } else {
        LayerRange { min_layer: (min_routing_layer - 1) as i32, max_layer: (max_routing_layer - 1) as i32 }
    }
}

/// Whether a net is the one that the facts at place `k` give, as the `index`-th.
pub open spec fn is_net_of(f: DesignFacts, min_routing_layer: i32, max_routing_layer: i32, layers: int, k: int, index: int, r: CugrNet) -> bool {
    let n = f.nets@[k];
    &&& r.index == index
    &&& r.facts_index == k
    &&& r.name@ == n.name@
    &&& r.layer_range == net_layers(f, n, min_routing_layer, max_routing_layer)
    &&& r.pins@.len() == n.pins@.len()
    &&& forall|i: int| 0 <= i < r.pins@.len() ==> is_pin_of(n.pins@[i], layers, i, #[trigger] r.pins@[i])
}

/// Whether the nets read are those that are routed.
pub open spec fn nets_read(f: DesignFacts, min_routing_layer: i32, max_routing_layer: i32, layers: int, nets: Seq<CugrNet>) -> bool {
    let kept = routed_nets(f.nets@, f.nets@.len() as int);
    &&& nets.len() == kept.len()
    &&& forall|i: int| 0 <= i < nets.len() ==> is_net_of(f, min_routing_layer, max_routing_layer, layers, kept[i], i, #[trigger] nets[i])
}

/// The first `n` shapes that are on routing layers at or below the top, as obstacles.
pub open spec fn routing_obstacles(shapes: Seq<Shape>, max_routing_layer: i32, n: int) -> Seq<BoxOnLayer>
    decreases n,
{
    if n <= 0 {
        Seq::empty()
    } else {
        let s = routing_obstacles(shapes, max_routing_layer, n - 1);
        match shapes[n - 1].layer {
            Some(l) => if l.is_routing && l.routing_level <= max_routing_layer {
                s.push(BoxOnLayer { layer: (l.routing_level - 1) as i32, b: box_of_rect(shapes[n - 1].rect) })
            } else {
                s
            },
            None => s,
        }
    }
}

/// A shape's routing level, 0 without a layer.
pub open spec fn level_of(s: Shape) -> i32 {
    match s.layer {
        Some(l) => l.routing_level,
        None => 0i32,
    }
}

/// Whether a net's special wires are obstacles: a special or a supply net that has wires.
pub open spec fn is_wired(n: NetFacts) -> bool {
    (n.is_special || n.is_supply) && n.wire_count != 0
}

/// Whether a wire box is not on a routing layer.
pub open spec fn is_off_layer(b: (Shape, bool), max_routing_layer: i32) -> bool {
    !b.1 && level_of(b.0) == 0 && max_routing_layer >= 0
}

/// Whether a net has a wire box that is not on a routing layer.
pub open spec fn has_off_layer(n: NetFacts, max_routing_layer: i32) -> bool {
    exists|k: int| 0 <= k < n.swire_boxes@.len() && is_off_layer(#[trigger] n.swire_boxes@[k], max_routing_layer)
}

/// The obstacles of the first `n` boxes of a net's special wires: those at or below the top, and of a
/// via those on routing layers alone.
pub open spec fn wire_obstacles(boxes: Seq<(Shape, bool)>, max_routing_layer: i32, n: int) -> Seq<BoxOnLayer>
    decreases n,
{
    if n <= 0 {
        Seq::empty()
    } else {
        let s = wire_obstacles(boxes, max_routing_layer, n - 1);
        let (b, from_via) = boxes[n - 1];
        if level_of(b) > max_routing_layer || (from_via && level_of(b) == 0) {
            s
        } else {
            s.push(BoxOnLayer { layer: (level_of(b) - 1) as i32, b: box_of_rect(b.rect) })
        }
    }
}

/// The obstacles of the special wires of the first `n` nets.
pub open spec fn special_obstacles(nets: Seq<NetFacts>, max_routing_layer: i32, n: int) -> Seq<BoxOnLayer>
    decreases n,
{
    if n <= 0 {
        Seq::empty()
    } else {
        let s = special_obstacles(nets, max_routing_layer, n - 1);
        if is_wired(nets[n - 1]) {
            s + wire_obstacles(nets[n - 1].swire_boxes@, max_routing_layer, nets[n - 1].swire_boxes@.len() as int)
        } else {
            s
        }
    }
}

/// The number of the first `n` nets with special wires.
pub open spec fn wired_count(nets: Seq<NetFacts>, n: int) -> int
    decreases n,
{
    if n <= 0 { 0 } else { wired_count(nets, n - 1) + (if is_wired(nets[n - 1]) { 1int } else { 0int }) }
}

/// Whether a wire box of a special net is not on a routing layer.
pub open spec fn is_refused(f: DesignFacts, max_routing_layer: i32) -> bool {
    exists|k: int| 0 <= k < f.nets@.len() && is_wired(#[trigger] f.nets@[k]) && has_off_layer(f.nets@[k], max_routing_layer)
}

/// The obstacles of a design: those of the instances, of the special nets and of the block.
pub open spec fn all_read_obstacles(f: DesignFacts, max_routing_layer: i32) -> Seq<BoxOnLayer> {
    routing_obstacles(f.instance_shapes@, max_routing_layer, f.instance_shapes@.len() as int) + special_obstacles(
        f.nets@,
        max_routing_layer,
        f.nets@.len() as int,
    ) + routing_obstacles(f.design_obstructions@, max_routing_layer, f.design_obstructions@.len() as int)
}

// ---- gridlines ----

/// The lines every `spacing` from `i` on while one more still fits strictly below `high`.
pub open spec fn lines_from(i: int, spacing: int, high: int) -> Seq<i32>
    decreases high - i,
{
    if spacing <= 0 || i + spacing >= high { Seq::empty() } else { seq![i as i32] + lines_from(i + spacing, spacing, high) }
}

/// The gridlines of an interval: those lines, and its high end.
pub open spec fn gridlines_of(low: int, spacing: int, high: int) -> Seq<i32> {
    let s = lines_from(low, spacing, high);
    if s.len() > 0 && s.last() != high { s.push(high as i32) } else { s }
}

proof fn lemma_lines(i: int, spacing: int, high: int)
    requires
        spacing > 0,
        i32::MIN <= i,
        high <= i32::MAX,
    ensures
        forall|k: int| 0 <= k < lines_from(i, spacing, high).len() ==> #[trigger] lines_from(i, spacing, high)[k] == i + k * spacing,
        forall|k: int| 0 <= k < lines_from(i, spacing, high).len() ==> #[trigger] lines_from(i, spacing, high)[k] + spacing < high,
        i + lines_from(i, spacing, high).len() * spacing + spacing >= high,
        lines_from(i, spacing, high).len() > 0 <==> i + spacing < high,
    decreases high - i,
{
    let s = lines_from(i, spacing, high);
    if i + spacing < high {
        lemma_lines(i + spacing, spacing, high);
        let r = lines_from(i + spacing, spacing, high);
        assert(s == seq![i as i32] + r);
        assert forall|k: int| 0 <= k < s.len() implies #[trigger] s[k] == i + k * spacing && s[k] + spacing < high by {
            if k > 0 {
                assert(s[k] == r[k - 1]);
                assert(r[k - 1] == i + spacing + (k - 1) * spacing);
                assert((k - 1) * spacing + spacing == k * spacing) by (nonlinear_arith);
            } else {
                assert(0 * spacing == 0) by (nonlinear_arith);
            }
        }
        assert((r.len() + 1) * spacing == r.len() * spacing + spacing) by (nonlinear_arith);
    } else {
        assert(0 * spacing == 0) by (nonlinear_arith);
    }
}

/// The gridlines of an interval wider than a gcell lie a gcell apart, but for the last, which lies at
/// the high end: the last gcell takes the remainder, and is wider than one and not wider than two.
pub proof fn the_last_gcell_takes_the_remainder(low: i32, spacing: i32, high: i32)
    requires
        spacing > 0,
        low + spacing < high,
    ensures
        ({
            let s = gridlines_of(low as int, spacing as int, high as int);
            &&& s.len() >= 2
            &&& s[0] == low
            &&& s.last() == high
            &&& forall|k: int| 0 <= k < s.len() - 2 ==> s[k + 1] == #[trigger] s[k] + spacing
            &&& spacing < s[s.len() - 1] - s[s.len() - 2] <= 2 * spacing
        }),
{
    let s = lines_from(low as int, spacing as int, high as int);
    lemma_lines(low as int, spacing as int, high as int);
    let n = s.len() as int;
    assert(0 * spacing == 0) by (nonlinear_arith);
    assert(s[n - 1] == low + (n - 1) * spacing);
    assert(s[n - 1] + spacing < high);
    assert((n - 1) * spacing + spacing == n * spacing) by (nonlinear_arith);
    let g = gridlines_of(low as int, spacing as int, high as int);
    assert(g == s.push(high));
    assert forall|k: int| 0 <= k < g.len() - 2 implies g[k + 1] == #[trigger] g[k] + spacing by {
        assert(s[k + 1] == low + (k + 1) * spacing);
        assert(s[k] == low + k * spacing);
        assert((k + 1) * spacing == k * spacing + spacing) by (nonlinear_arith);
    }
}

/// The gridlines of an interval. `Err` where the interval is no wider than one gcell.
fn grid_of(low: i32, high: i32, spacing: i32) -> (r: Result<Vec<i32>, ()>)
    requires
        spacing > 0,
    ensures
        match r {
            Ok(v) => v@ == gridlines_of(low as int, spacing as int, high as int) && low + spacing < high,
            Err(()) => low + spacing >= high,
        },
{
    let mut lines: Vec<i32> = Vec::new();
    let mut i: i64 = low as i64;
    assert(lines@ + lines_from(low as int, spacing as int, high as int) =~= lines_from(low as int, spacing as int, high as int));
    while i + (spacing as i64) < high as i64
        invariant
            spacing > 0,
            low <= i,
            i <= high || i == low,
            lines@ + lines_from(i as int, spacing as int, high as int) == lines_from(low as int, spacing as int, high as int),
            lines@.len() > 0 ==> low + spacing < high && lines@.last() + spacing < high,
            lines@.len() == 0 ==> i == low,
        decreases high - i,
    {
        let ghost s0 = lines@;
        lines.push(i as i32);
        proof {
            let rest = lines_from(i + spacing, spacing as int, high as int);
            assert(lines_from(i as int, spacing as int, high as int) == seq![i as i32] + rest);
            assert(lines@ + rest =~= s0 + lines_from(i as int, spacing as int, high as int));
        }
        i = i + spacing as i64;
    }
    assert(lines@ + lines_from(i as int, spacing as int, high as int) =~= lines@);
    if lines.len() == 0 {
        return Err(());
    }
    lines.push(high);
    Ok(lines)
}

// ---- vias ----

/// The number of a via's first `n` boxes on a layer.
pub open spec fn boxes_on(boxes: Seq<(String, Rect)>, layer: Seq<char>, n: int) -> int
    decreases n,
{
    if n <= 0 { 0 } else { boxes_on(boxes, layer, n - 1) + (if boxes[n - 1].0@ == layer { 1int } else { 0int }) }
}

/// The area of a rectangle.
pub open spec fn area_of(r: Rect) -> int {
    (r.2 - r.0) * (r.3 - r.1)
}

/// The area of a via's first `n` boxes on the two metal layers, those on the cut layer left out.
pub open spec fn enclosure(boxes: Seq<(String, Rect)>, lower: Seq<char>, upper: Seq<char>, cut: Seq<char>, n: int) -> int
    decreases n,
{
    if n <= 0 {
        0
    } else {
        let b = boxes[n - 1];
        enclosure(boxes, lower, upper, cut, n - 1) + (if b.0@ != cut && (b.0@ == lower || b.0@ == upper) { area_of(b.1) } else { 0 })
    }
}

/// What ranks a via: a marked default first, then the fewest cuts, then a default, then the smallest
/// enclosure.
pub struct ViaKey {
    pub unmarked: bool,
    pub cuts: int,
    pub plain: bool,
    pub area: int,
}

pub open spec fn via_key(v: TechViaFacts, lower: Seq<char>, upper: Seq<char>, cut: Seq<char>) -> ViaKey {
    ViaKey {
        unmarked: !v.or_default,
        cuts: boxes_on(v.boxes@, cut, v.boxes@.len() as int),
        plain: !v.is_default,
        area: enclosure(v.boxes@, lower, upper, cut, v.boxes@.len() as int),
    }
}

/// Whether a rank comes before another.
pub open spec fn ranks_before(a: ViaKey, b: ViaKey) -> bool {
    if a.unmarked != b.unmarked {
        !a.unmarked
    } else if a.cuts != b.cuts {
        a.cuts < b.cuts
    } else if a.plain != b.plain {
        !a.plain
    } else {
        a.area < b.area
    }
}

/// Whether a via connects exactly a pair of layers.
pub open spec fn connects(v: TechViaFacts, lower: Seq<char>, upper: Seq<char>) -> bool {
    v.bottom@ == lower && v.top@ == upper
}

/// The first of the best-ranked vias among the first `n` that connect a pair.
pub open spec fn best_via(vias: Seq<TechViaFacts>, lower: Seq<char>, upper: Seq<char>, cut: Seq<char>, n: int) -> Option<int>
    decreases n,
{
    if n <= 0 {
        None
    } else {
        let b = best_via(vias, lower, upper, cut, n - 1);
        if !connects(vias[n - 1], lower, upper) {
            b
        } else {
            match b {
                Some(k) => if ranks_before(via_key(vias[n - 1], lower, upper, cut), via_key(vias[k], lower, upper, cut)) {
                    Some(n - 1)
                } else {
                    b
                },
                None => Some(n - 1),
            }
        }
    }
}

struct Rank {
    unmarked: bool,
    cuts: usize,
    plain: bool,
    area: i128,
}

impl Rank {
    spec fn plain_key(self) -> ViaKey {
        ViaKey { unmarked: self.unmarked, cuts: self.cuts as int, plain: self.plain, area: self.area as int }
    }
}

fn rank_of(v: &TechViaFacts, lower: &str, upper: &str, cut: &str) -> (r: Rank)
    requires
        v.boxes@.len() <= u32::MAX,
    ensures
        r.plain_key() == via_key(*v, lower@, upper@, cut@),
{
    let mut cuts: usize = 0;
    let mut area: i128 = 0;
    let mut k: usize = 0;
    while k < v.boxes.len()
        invariant
            k <= v.boxes@.len(),
            cuts <= k,
            v.boxes@.len() <= u32::MAX,
            cuts == boxes_on(v.boxes@, cut@, k as int),
            area == enclosure(v.boxes@, lower@, upper@, cut@, k as int),
            -0x1_0000_0000_0000_0000 * k <= area <= 0x1_0000_0000_0000_0000 * k,
        decreases v.boxes@.len() - k,
    {
        let name = v.boxes[k].0.as_str();
        if same_text(name, cut) {
            cuts += 1;
        } else if same_text(name, lower) || same_text(name, upper) {
            let r = v.boxes[k].1;
            let (w, h) = (r.2 as i128 - r.0 as i128, r.3 as i128 - r.1 as i128);
            assert(-0x1_0000_0000_0000_0000 <= w * h <= 0x1_0000_0000_0000_0000) by (nonlinear_arith)
                requires
                    -0x1_0000_0000 <= w <= 0x1_0000_0000,
                    -0x1_0000_0000 <= h <= 0x1_0000_0000,
            ;
            area = area + w * h;
        }
        k += 1;
    }
    Rank { unmarked: !v.or_default, cuts, plain: !v.is_default, area }
}

fn is_before(a: &Rank, b: &Rank) -> (r: bool)
    ensures
        r == ranks_before(a.plain_key(), b.plain_key()),
{
    if a.unmarked != b.unmarked {
        !a.unmarked
    } else if a.cuts != b.cuts {
        a.cuts < b.cuts
    } else if a.plain != b.plain {
        !a.plain
    } else {
        a.area < b.area
    }
}

/// The box that grows over a via's first `n` boxes on a layer, from an inverted one.
pub open spec fn merged(boxes: Seq<(String, Rect)>, layer: Seq<char>, n: int) -> Rect
    decreases n,
{
    if n <= 0 {
        (i32::MAX, i32::MAX, i32::MIN, i32::MIN)
    } else {
        let m = merged(boxes, layer, n - 1);
        let (l, r) = (boxes[n - 1].0, boxes[n - 1].1);
        if l@ == layer {
            (if r.0 < m.0 { r.0 } else { m.0 }, if r.1 < m.1 { r.1 } else { m.1 }, if r.2 > m.2 { r.2 } else { m.2 }, if r.3 > m.3 { r.3 } else { m.3 })
        } else {
            m
        }
    }
}

/// Whether a box has an area.
pub open spec fn has_area(m: Rect) -> bool {
    m.0 < m.2 && m.1 < m.3
}

/// The spacing that a via keeps on a layer: the layer's own, or its default where it has none.
pub open spec fn via_spacing(l: MetalLayer) -> int {
    if l.spacing > 0 { l.spacing as int } else { l.default_spacing as int }
}

/// How much of a layer's tracks a pad takes: its extent along them times the whole tracks that it
/// blocks across them, one where the layer has no pitch.
pub open spec fn demand_length(l: MetalLayer, dx: int, dy: int) -> int {
    let (along, across) = if l.direction == H { (dx, dy) } else { (dy, dx) };
    along * (if l.pitch > 0 { ceil_div(across + 2 * via_spacing(l), l.pitch as int) } else { 1 })
}

/// How many times its least length a via takes by default where no via connects a pair.
pub const VIA_MULTIPLIER: i32 = 2;

/// How much of a layer's tracks a via takes, on the layer of the given name: by the box around its
/// boxes there where that has an area, else by so many times the layer's least length.
pub open spec fn pair_demand(f: DesignFacts, via_multiplier: i32, chosen: Option<int>, l: MetalLayer) -> int {
    match chosen {
        Some(k) => {
            let m = merged(f.vias@[k].boxes@, l.name@, f.vias@[k].boxes@.len() as int);
            if has_area(m) { demand_length(l, m.2 - m.0, m.3 - m.1) } else { l.min_length * via_multiplier }
        },
        None => l.min_length * via_multiplier,
    }
}

/// The name of the cut layer above the first `n`-th layer of a name, empty where there is none.
pub open spec fn cut_above(layers: Seq<TechLayerFacts>, name: Seq<char>, n: int) -> Seq<char>
    decreases layers.len() - n,
{
    if n >= layers.len() {
        Seq::empty()
    } else if layers[n].name@ == name {
        layers[n].upper_layer@
    } else {
        cut_above(layers, name, n + 1)
    }
}

/// The via chosen for a layer and the one above it.
pub open spec fn pair_via(f: DesignFacts, lower: MetalLayer, upper: MetalLayer) -> Option<int> {
    best_via(f.vias@, lower.name@, upper.name@, cut_above(f.layers@, lower.name@, 0), f.vias@.len() as int)
}

fn merged_of(v: &TechViaFacts, layer: &str) -> (m: Rect)
    ensures
        m == merged(v.boxes@, layer@, v.boxes@.len() as int),
{
    let mut m: Rect = (i32::MAX, i32::MAX, i32::MIN, i32::MIN);
    let mut k: usize = 0;
    while k < v.boxes.len()
        invariant
            k <= v.boxes@.len(),
            m == merged(v.boxes@, layer@, k as int),
        decreases v.boxes@.len() - k,
    {
        if same_text(v.boxes[k].0.as_str(), layer) {
            let r = v.boxes[k].1;
            m = (
                if r.0 < m.0 { r.0 } else { m.0 },
                if r.1 < m.1 { r.1 } else { m.1 },
                if r.2 > m.2 { r.2 } else { m.2 },
                if r.3 > m.3 { r.3 } else { m.3 },
            );
        }
        k += 1;
    }
    m
}

/// Whether the sum of the areas of a via's boxes fits the machine.
pub open spec fn vias_fit(vias: Seq<TechViaFacts>) -> bool {
    forall|k: int| 0 <= k < vias.len() ==> (#[trigger] vias[k]).boxes@.len() <= u32::MAX
}

/// Whether the numbers of a design fit the machine.
pub open spec fn design_fits(f: DesignFacts, min_routing_layer: i32, max_routing_layer: i32) -> bool {
    &&& f.gcell_tile_size > 0
    &&& f.layers@.len() <= i32::MAX
    &&& vias_fit(f.vias@)
    &&& forall|k: int| 0 <= k < f.layers@.len() && keeps_layer(#[trigger] f.layers@[k], max_routing_layer) ==> layer_fits(f.layers@[k].metal->0)
    &&& min_routing_layer > i32::MIN
    &&& max_routing_layer > i32::MIN
    &&& forall|k: int, p: int, s: int|
        0 <= k < f.nets@.len() && 0 <= p < f.nets@[k].pins@.len() && 0 <= s < f.nets@[k].pins@[p].shapes@.len() ==> level_of(
            #[trigger] f.nets@[k].pins@[p].shapes@[s],
        ) > i32::MIN
    &&& forall|k: int, s: int| 0 <= k < f.nets@.len() && 0 <= s < f.nets@[k].swire_boxes@.len() ==> level_of((#[trigger] f.nets@[k].swire_boxes@[s]).0) > i32::MIN
    &&& forall|s: int| 0 <= s < f.instance_shapes@.len() ==> level_of(#[trigger] f.instance_shapes@[s]) > i32::MIN
    &&& forall|s: int| 0 <= s < f.design_obstructions@.len() ==> level_of(#[trigger] f.design_obstructions@[s]) > i32::MIN
}

/// Whether a design is the one that the facts give.
pub open spec fn is_design_of(f: DesignFacts, via_multiplier: i32, min_routing_layer: i32, max_routing_layer: i32, d: Design) -> bool {
    let n = d.layers@.len() as int;
    &&& d.dbu_per_micron == f.dbu_per_micron
    &&& d.die == box_of_rect(f.die)
    &&& d.gridline_spacing == f.gcell_tile_size
    &&& layers_read(f, max_routing_layer, d.layers@)
    &&& nets_read(f, min_routing_layer, max_routing_layer, n, d.nets@)
    &&& d.obstacles@ == all_read_obstacles(f, max_routing_layer)
    &&& d.num_special_nets == wired_count(f.nets@, f.nets@.len() as int)
    &&& d.gridlines@.len() == 2
    &&& d.gridlines@[0]@ == gridlines_of(f.die.0 as int, f.gcell_tile_size as int, f.die.2 as int)
    &&& d.gridlines@[1]@ == gridlines_of(f.die.1 as int, f.gcell_tile_size as int, f.die.3 as int)
    &&& demands_computed(f, via_multiplier, d)
}

/// Whether every length that a design deposits can be negated.
pub open spec fn can_negate(design: Design, num_layers: int) -> bool {
    forall|l: int|
        #![trigger design.via_demand_length_lower@[l]]
        #![trigger design.via_demand_length_upper@[l]]
        #![trigger design.wrong_way_demand_length@[l]]
        0 <= l < num_layers ==> design.via_demand_length_lower@[l] > i128::MIN && design.via_demand_length_upper@[l] > i128::MIN && design.wrong_way_demand_length@[l] > i128::MIN
}

/// Whether the via demands of a design are those of its layers.
pub open spec fn demands_computed(f: DesignFacts, via_multiplier: i32, d: Design) -> bool {
    let n = d.layers@.len() as int;
    &&& d.wrong_way_demand_length@.len() == n
    &&& d.via_demand_length_lower@.len() == n
    &&& d.via_demand_length_upper@.len() == n
    &&& d.pair_vias@.len() == (if n > 0 { n - 1 } else { 0 })
    &&& forall|i: int| 0 <= i < n ==> #[trigger] d.wrong_way_demand_length@[i] == demand_length(
        d.layers@[i],
        (if d.layers@[i].direction == H { d.layers@[i].width } else { d.gridline_spacing }) as int,
        (if d.layers@[i].direction == H { d.gridline_spacing } else { d.layers@[i].width }) as int,
    )
    &&& forall|i: int| 0 <= i < n ==> #[trigger] d.via_demand_length_lower@[i] == (if i < n - 1 {
        pair_demand(f, via_multiplier, pair_via(f, d.layers@[i], d.layers@[i + 1]), d.layers@[i])
    } else {
        0
    })
    &&& forall|i: int| 0 <= i < n ==> #[trigger] d.via_demand_length_upper@[i] == (if i < n - 1 {
        pair_demand(f, via_multiplier, pair_via(f, d.layers@[i], d.layers@[i + 1]), d.layers@[i + 1])
    } else {
        0
    })
    &&& forall|i: int| 0 <= i < n - 1 ==> as_place(#[trigger] d.pair_vias@[i]) == pair_via(f, d.layers@[i], d.layers@[i + 1])
}

/// A place as an integer.
pub open spec fn as_place(p: Option<usize>) -> Option<int> {
    match p {
        Some(k) => Some(k as int),
        None => None,
    }
}

fn push_routing_obstacles(out: &mut Vec<BoxOnLayer>, shapes: &Vec<Shape>, max_routing_layer: i32)
    requires
        forall|s: int| 0 <= s < shapes@.len() ==> level_of(#[trigger] shapes@[s]) > i32::MIN,
    ensures
        final(out)@ == old(out)@ + routing_obstacles(shapes@, max_routing_layer, shapes@.len() as int),
{
    let ghost out0 = out@;
    let mut k: usize = 0;
    while k < shapes.len()
        invariant
            k <= shapes@.len(),
            forall|s: int| 0 <= s < shapes@.len() ==> level_of(#[trigger] shapes@[s]) > i32::MIN,
            out@ == out0 + routing_obstacles(shapes@, max_routing_layer, k as int),
        decreases shapes@.len() - k,
    {
        let s = shapes[k];
        assert(level_of(shapes@[k as int]) > i32::MIN);
        match s.layer {
            Some(l) => {
                if l.is_routing && l.routing_level <= max_routing_layer {
                    out.push(BoxOnLayer { layer: l.routing_level - 1, b: box_of(s.rect) });
                    assert(out@ =~= out0 + routing_obstacles(shapes@, max_routing_layer, k + 1));
                }
            },
            None => {},
        }
        k += 1;
    }
}

/// The obstacles of the special nets and their number, or the net that has a wire box off its layer.
fn read_special_net_obstructions(out: &mut Vec<BoxOnLayer>, nets: &Vec<NetFacts>, max_routing_layer: i32) -> (r: Result<usize, usize>)
    requires
        forall|k: int, s: int| 0 <= k < nets@.len() && 0 <= s < nets@[k].swire_boxes@.len() ==> level_of((#[trigger] nets@[k].swire_boxes@[s]).0) > i32::MIN,
    ensures
        match r {
            Ok(c) => {
                &&& c == wired_count(nets@, nets@.len() as int)
                &&& final(out)@ == old(out)@ + special_obstacles(nets@, max_routing_layer, nets@.len() as int)
                &&& forall|k: int| 0 <= k < nets@.len() && is_wired(#[trigger] nets@[k]) ==> !has_off_layer(nets@[k], max_routing_layer)
            },
            Err(k) => {
                &&& k < nets@.len()
                &&& is_wired(nets@[k as int])
                &&& has_off_layer(nets@[k as int], max_routing_layer)
                &&& forall|j: int| 0 <= j < k && is_wired(#[trigger] nets@[j]) ==> !has_off_layer(nets@[j], max_routing_layer)
            },
        },
{
    let ghost out0 = out@;
    let mut count: usize = 0;
    let mut n: usize = 0;
    while n < nets.len()
        invariant
            n <= nets@.len(),
            out0 == old(out)@,
            forall|k: int, s: int| 0 <= k < nets@.len() && 0 <= s < nets@[k].swire_boxes@.len() ==> level_of((#[trigger] nets@[k].swire_boxes@[s]).0) > i32::MIN,
            count <= n,
            count == wired_count(nets@, n as int),
            out@ == out0 + special_obstacles(nets@, max_routing_layer, n as int),
            forall|j: int| 0 <= j < n && is_wired(#[trigger] nets@[j]) ==> !has_off_layer(nets@[j], max_routing_layer),
        decreases nets@.len() - n,
    {
        let net = &nets[n];
        if (net.is_special || net.is_supply) && net.wire_count != 0 {
            let ghost out1 = out@;
            let mut k: usize = 0;
            while k < net.swire_boxes.len()
                invariant
                    n < nets@.len(),
                    *net == nets@[n as int],
                    is_wired(*net),
                    k <= net.swire_boxes@.len(),
                    forall|k: int, s: int| 0 <= k < nets@.len() && 0 <= s < nets@[k].swire_boxes@.len() ==> level_of((#[trigger] nets@[k].swire_boxes@[s]).0) > i32::MIN,
                    forall|j: int| 0 <= j < n && is_wired(#[trigger] nets@[j]) ==> !has_off_layer(nets@[j], max_routing_layer),
                    out@ == out1 + wire_obstacles(net.swire_boxes@, max_routing_layer, k as int),
                    forall|j: int| 0 <= j < k ==> !is_off_layer(#[trigger] net.swire_boxes@[j], max_routing_layer),
                decreases net.swire_boxes@.len() - k,
            {
                let (s, from_via) = net.swire_boxes[k];
                assert(level_of(nets@[n as int].swire_boxes@[k as int].0) > i32::MIN);
                let level: i32 = match s.layer {
                    Some(l) => l.routing_level,
                    None => 0,
                };
                let skip = level > max_routing_layer || (from_via && level == 0);
                if !skip {
                    if level == 0 {
                        assert(is_off_layer(net.swire_boxes@[k as int], max_routing_layer));
                        return Err(n);
                    }
                    out.push(BoxOnLayer { layer: level - 1, b: box_of(s.rect) });
                    assert(out@ =~= out1 + wire_obstacles(net.swire_boxes@, max_routing_layer, k + 1));
                }
                k += 1;
            }
            count += 1;
            assert(out@ =~= out0 + special_obstacles(nets@, max_routing_layer, n + 1));
            assert(!has_off_layer(nets@[n as int], max_routing_layer));
        }
        n += 1;
    }
    Ok(count)
}

fn make_net_pins(n: &NetFacts, layers: usize) -> (pins: Vec<CugrPin>)
    requires
        layers <= i32::MAX,
        forall|p: int, s: int| 0 <= p < n.pins@.len() && 0 <= s < n.pins@[p].shapes@.len() ==> level_of(#[trigger] n.pins@[p].shapes@[s]) > i32::MIN,
    ensures
        pins@.len() == n.pins@.len(),
        forall|i: int| 0 <= i < pins@.len() ==> is_pin_of(n.pins@[i], layers as int, i, #[trigger] pins@[i]),
{
    let mut pins: Vec<CugrPin> = Vec::new();
    let mut i: usize = 0;
    while i < n.pins.len()
        invariant
            i <= n.pins@.len(),
            layers <= i32::MAX,
            forall|p: int, s: int| 0 <= p < n.pins@.len() && 0 <= s < n.pins@[p].shapes@.len() ==> level_of(#[trigger] n.pins@[p].shapes@[s]) > i32::MIN,
            pins@.len() == i,
            forall|j: int| 0 <= j < pins@.len() ==> is_pin_of(n.pins@[j], layers as int, j, #[trigger] pins@[j]),
        decreases n.pins@.len() - i,
    {
        let p = &n.pins[i];
        let mut shapes: Vec<BoxOnLayer> = Vec::new();
        if p.has_location {
            let mut k: usize = 0;
            while k < p.shapes.len()
                invariant
                    i < n.pins@.len(),
                    *p == n.pins@[i as int],
                    k <= p.shapes@.len(),
                    layers <= i32::MAX,
                    forall|p: int, s: int| 0 <= p < n.pins@.len() && 0 <= s < n.pins@[p].shapes@.len() ==> level_of(#[trigger] n.pins@[p].shapes@[s]) > i32::MIN,
                    shapes@ == pin_shapes(p.shapes@, layers as int, k as int),
                decreases p.shapes@.len() - k,
            {
                let s = p.shapes[k];
                assert(level_of(n.pins@[i as int].shapes@[k as int]) > i32::MIN);
                match s.layer {
                    Some(l) => {
                        if l.is_routing {
                            let at: i32 = l.routing_level - 1;
                            let top: i32 = layers as i32 - 1;
                            shapes.push(BoxOnLayer { layer: if at < top { at } else { top }, b: box_of(s.rect) });
                        }
                    },
                    None => {},
                }
                k += 1;
            }
        }
        pins.push(CugrPin { index: i, name: String::from_str(p.name.as_str()), is_port: p.is_port, shapes });
        i += 1;
    }
    pins
}

fn read_netlist(f: &DesignFacts, min_routing_layer: i32, max_routing_layer: i32, layers: usize) -> (nets: Vec<CugrNet>)
    requires
        design_fits(*f, min_routing_layer, max_routing_layer),
        layers <= i32::MAX,
    ensures
        nets_read(*f, min_routing_layer, max_routing_layer, layers as int, nets@),
{
    let mut nets: Vec<CugrNet> = Vec::new();
    let mut k: usize = 0;
    while k < f.nets.len()
        invariant
            k <= f.nets@.len(),
            design_fits(*f, min_routing_layer, max_routing_layer),
            layers <= i32::MAX,
            nets@.len() == routed_nets(f.nets@, k as int).len(),
            forall|i: int| 0 <= i < nets@.len() ==> is_net_of(*f, min_routing_layer, max_routing_layer, layers as int, routed_nets(f.nets@, k as int)[i], i, #[trigger] nets@[i]),
        decreases f.nets@.len() - k,
    {
        let n = &f.nets[k];
        if !n.is_special && !n.is_supply && !n.has_swires && !n.connected_by_abutment && n.pins.len() >= 2 {
            assert forall|p: int, s: int| 0 <= p < n.pins@.len() && 0 <= s < n.pins@[p].shapes@.len() implies level_of(#[trigger] n.pins@[p].shapes@[s]) > i32::MIN by {
                assert(level_of(f.nets@[k as int].pins@[p].shapes@[s]) > i32::MIN);
            }
            let pins = make_net_pins(n, layers);
            let layer_range = if n.is_clock && f.min_layer_for_clock > 0 && f.max_layer_for_clock > 0 {
                LayerRange { min_layer: f.min_layer_for_clock - 1, max_layer: f.max_layer_for_clock - 1 }
            } else {
                LayerRange { min_layer: min_routing_layer - 1, max_layer: max_routing_layer - 1 }
            };
            let index: usize = nets.len();
            let ghost s0 = nets@;
            nets.push(CugrNet { index, name: String::from_str(n.name.as_str()), pins, layer_range, facts_index: k });
            proof {
                let r0 = routed_nets(f.nets@, k as int);
                let r1 = routed_nets(f.nets@, k + 1);
                assert(r1 == r0.push(k as int));
                assert forall|i: int| 0 <= i < nets@.len() implies is_net_of(*f, min_routing_layer, max_routing_layer, layers as int, r1[i], i, #[trigger] nets@[i]) by {
                    if i < s0.len() {
                        assert(is_net_of(*f, min_routing_layer, max_routing_layer, layers as int, r0[i], i, s0[i]));
                    }
                }
            }
        } else {
            assert(routed_nets(f.nets@, k + 1) == routed_nets(f.nets@, k as int));
        }
        k += 1;
    }
    nets
}

fn read_layers(f: &DesignFacts, min_routing_layer: i32, max_routing_layer: i32) -> (layers: Vec<MetalLayer>)
    requires
        design_fits(*f, min_routing_layer, max_routing_layer),
    ensures
        layers_read(*f, max_routing_layer, layers@),
        layers@.len() <= f.layers@.len(),
{
    let mut layers: Vec<MetalLayer> = Vec::new();
    let mut k: usize = 0;
    while k < f.layers.len()
        invariant
            k <= f.layers@.len(),
            design_fits(*f, min_routing_layer, max_routing_layer),
            layers@.len() <= k,
            layers@.len() == kept_layers(f.layers@, max_routing_layer, k as int).len(),
            forall|i: int| 0 <= i < layers@.len() ==> is_layer_of(f.layers@[kept_layers(f.layers@, max_routing_layer, k as int)[i]].metal->0, #[trigger] layers@[i]),
        decreases f.layers@.len() - k,
    {
        let l = &f.layers[k];
        let ghost s0 = layers@;
        let ghost r0 = kept_layers(f.layers@, max_routing_layer, k as int);
        if l.is_routing && l.routing_level <= max_routing_layer {
            match &l.metal {
                Some(m) => {
                    assert(keeps_layer(f.layers@[k as int], max_routing_layer));
                    let layer = MetalLayer::new(m);
                    layers.push(layer);
                },
                None => {},
            }
        }
        proof {
            let r1 = kept_layers(f.layers@, max_routing_layer, k + 1);
            assert forall|i: int| 0 <= i < layers@.len() implies is_layer_of(f.layers@[r1[i]].metal->0, #[trigger] layers@[i]) by {
                if i < s0.len() {
                    assert(is_layer_of(f.layers@[r0[i]].metal->0, s0[i]));
                }
            }
        }
        k += 1;
    }
    layers
}

/// What the via demands of a design are.
struct Demands {
    lower: Vec<i128>,
    upper: Vec<i128>,
    wrong_way: Vec<i128>,
    pairs: Vec<Option<usize>>,
}

impl Design {
    /// Reads a design.
    ///
    /// The layers are the routing layers at or below the top with a track grid. The nets are the
    /// ordinary ones with two terminals at least. The obstacles are those of the instances, of the
    /// special nets and of the block. The gridlines lie a gcell apart, and the last gcell takes the
    /// remainder. Where no via connects a pair of layers, one is taken to be so many times a layer's
    /// least length.
    ///
    /// Refused, in this order: a wire box of a special net that is on no routing layer, a die that is
    /// no wider than a gcell, and fewer than two layers.
    pub fn new(f: &DesignFacts, via_multiplier: i32, min_routing_layer: i32, max_routing_layer: i32) -> (r: Result<Design, DesignError>)
        requires
            design_fits(*f, min_routing_layer, max_routing_layer),
        ensures
            match r {
                Ok(d) => {
                    &&& !is_refused(*f, max_routing_layer)
                    &&& f.die.0 + f.gcell_tile_size < f.die.2
                    &&& f.die.1 + f.gcell_tile_size < f.die.3
                    &&& d.layers@.len() >= 2
                    &&& is_design_of(*f, via_multiplier, min_routing_layer, max_routing_layer, d)
                    &&& can_negate(d, d.layers@.len() as int)
                },
                Err(DesignError::SpecialWireOffRoutingLayer { net }) => is_first_refused(*f, max_routing_layer, net@),
                Err(DesignError::DieSmallerThanGcell) => {
                    &&& !is_refused(*f, max_routing_layer)
                    &&& f.die.0 + f.gcell_tile_size >= f.die.2 || f.die.1 + f.gcell_tile_size >= f.die.3
                },
                Err(DesignError::TooFewLayers) => {
                    &&& !is_refused(*f, max_routing_layer)
                    &&& f.die.0 + f.gcell_tile_size < f.die.2
                    &&& f.die.1 + f.gcell_tile_size < f.die.3
                    &&& kept_layers(f.layers@, max_routing_layer, f.layers@.len() as int).len() < 2
                },
            },
    {
        let layers = read_layers(f, min_routing_layer, max_routing_layer);
        let nets = read_netlist(f, min_routing_layer, max_routing_layer, layers.len());
        let mut obstacles: Vec<BoxOnLayer> = Vec::new();
        push_routing_obstacles(&mut obstacles, &f.instance_shapes, max_routing_layer);
        let num_special_nets: usize = match read_special_net_obstructions(&mut obstacles, &f.nets, max_routing_layer) {
            Ok(c) => c,
            Err(k) => {
                let net = String::from_str(f.nets[k].name.as_str());
                assert(is_refused_at(*f, max_routing_layer, k as int));
                return Err(DesignError::SpecialWireOffRoutingLayer { net });
            },
        };
        push_routing_obstacles(&mut obstacles, &f.design_obstructions, max_routing_layer);
        assert(obstacles@ =~= all_read_obstacles(*f, max_routing_layer));
        let x_lines = match grid_of(f.die.0, f.die.2, f.gcell_tile_size) {
            Ok(v) => v,
            Err(()) => {
                return Err(DesignError::DieSmallerThanGcell);
            },
        };
        let y_lines = match grid_of(f.die.1, f.die.3, f.gcell_tile_size) {
            Ok(v) => v,
            Err(()) => {
                return Err(DesignError::DieSmallerThanGcell);
            },
        };
        let mut gridlines: Vec<Vec<i32>> = Vec::new();
        gridlines.push(x_lines);
        gridlines.push(y_lines);
        if layers.len() < 2 {
            return Err(DesignError::TooFewLayers);
        }
        let demands = Design::compute_via_demand_lengths(f, via_multiplier, &layers, f.gcell_tile_size);
        Ok(
            Design {
                dbu_per_micron: f.dbu_per_micron,
                die: box_of(f.die),
                layers,
                gridline_spacing: f.gcell_tile_size,
                gridlines,
                nets,
                obstacles,
                num_special_nets,
                pair_vias: demands.pairs,
                via_demand_length_lower: demands.lower,
                via_demand_length_upper: demands.upper,
                wrong_way_demand_length: demands.wrong_way,
            },
        )
    }

    /// The via that connects exactly a pair of layers: the best ranked, and of several the first. The
    /// cuts are the boxes on the cut layer.
    pub fn choose_via_for_pair(f: &DesignFacts, lower: &str, upper: &str, cut: &str) -> (r: Option<usize>)
        requires
            vias_fit(f.vias@),
        ensures
            as_place(r) == best_via(f.vias@, lower@, upper@, cut@, f.vias@.len() as int),
            r matches Some(k) ==> k < f.vias@.len(),
    {
        let mut best: Option<(usize, Rank)> = None;
        let mut k: usize = 0;
        while k < f.vias.len()
            invariant
                k <= f.vias@.len(),
                vias_fit(f.vias@),
                match best {
                    Some((b, r)) => {
                        &&& b < k
                        &&& best_via(f.vias@, lower@, upper@, cut@, k as int) == Some(b as int)
                        &&& r.plain_key() == via_key(f.vias@[b as int], lower@, upper@, cut@)
                    },
                    None => best_via(f.vias@, lower@, upper@, cut@, k as int) is None,
                },
            decreases f.vias@.len() - k,
        {
            let v = &f.vias[k];
            if same_text(v.bottom.as_str(), lower) && same_text(v.top.as_str(), upper) {
                let rank = rank_of(v, lower, upper, cut);
                let better = match &best {
                    Some((_, r)) => is_before(&rank, r),
                    None => true,
                };
                if better {
                    best = Some((k, rank));
                }
            }
            k += 1;
        }
        match best {
            Some((b, _)) => Some(b),
            None => None,
        }
    }

    /// How much of a layer's tracks a pad takes: its extent along them times the whole tracks that it
    /// blocks across them.
    pub fn via_demand_length(layer: &MetalLayer, dx: i32, dy: i32) -> (r: i128)
        ensures
            r == demand_length(*layer, dx as int, dy as int),
            r > i128::MIN,
    {
        Design::demand_of(layer, dx as i64, dy as i64)
    }

    /// How much of a layer's tracks the via of a pair takes.
    fn pair_demand_of(f: &DesignFacts, via_multiplier: i32, chosen: Option<usize>, layer: &MetalLayer) -> (r: i128)
        requires
            chosen matches Some(k) ==> k < f.vias@.len(),
        ensures
            r == pair_demand(*f, via_multiplier, as_place(chosen), *layer),
            r > i128::MIN,
    {
        let (length, times) = (layer.min_length, via_multiplier);
        assert(-0x4000_0000_0000_0000 <= length * times <= 0x4000_0000_0000_0000) by (nonlinear_arith)
            requires
                -0x8000_0000 <= length <= 0x7fff_ffff,
                -0x8000_0000 <= times <= 0x7fff_ffff,
        ;
        let fallback: i128 = (layer.min_length as i128) * (via_multiplier as i128);
        match chosen {
            Some(k) => {
                let m = merged_of(&f.vias[k], layer.name.as_str());
                if m.0 < m.2 && m.1 < m.3 {
                    Design::demand_of(layer, m.2 as i64 - m.0 as i64, m.3 as i64 - m.1 as i64)
                } else {
                    fallback
                }
            },
            None => fallback,
        }
    }

    /// The demand of a pad whose sides may exceed a coordinate.
    fn demand_of(layer: &MetalLayer, dx: i64, dy: i64) -> (r: i128)
        requires
            -0x1_0000_0000 <= dx <= 0x1_0000_0000,
            -0x1_0000_0000 <= dy <= 0x1_0000_0000,
        ensures
            r == demand_length(*layer, dx as int, dy as int),
            r > i128::MIN,
    {
        let spacing: i32 = if layer.spacing > 0 { layer.spacing } else { layer.default_spacing };
        let (along, across) = if layer.direction == H { (dx, dy) } else { (dy, dx) };
        let a: i64 = across + 2 * (spacing as i64);
        let tracks: i64 = if layer.pitch > 0 {
            let p: i64 = layer.pitch as i64;
            if a >= 0 { (a + p - 1) / p } else { -((-a) / p) }
        } else {
            1
        };
        proof {
            if layer.pitch > 0 {
                let p = layer.pitch as int;
                let b = a as int;
                if b < 0 {
                    let q = (-b) / p;
                    assert(-q == (b + p - 1) / p) by (nonlinear_arith)
                        requires
                            p > 0,
                            q == (-b) / p,
                    ;
                }
                assert(tracks == ceil_div(b, p));
                assert(-0x4_0000_0000 <= ceil_div(b, p) <= 0x4_0000_0000) by (nonlinear_arith)
                    requires
                        p >= 1,
                        -0x2_0000_0000 <= b <= 0x2_0000_0000,
                        ceil_div(b, p) == (b + p - 1) / p,
                        p <= 0x8000_0000,
                ;
            }
            assert(-0x4000_0000_0000_0000_0000 <= along * tracks <= 0x4000_0000_0000_0000_0000) by (nonlinear_arith)
                requires
                    -0x1_0000_0000 <= along <= 0x1_0000_0000,
                    -0x4_0000_0000 <= tracks <= 0x4_0000_0000,
            ;
        }
        (along as i128) * (tracks as i128)
    }

    fn compute_via_demand_lengths(f: &DesignFacts, via_multiplier: i32, layers: &Vec<MetalLayer>, spacing: i32) -> (d: Demands)
        requires
            vias_fit(f.vias@),
        ensures
            d.wrong_way@.len() == layers@.len(),
            d.lower@.len() == layers@.len(),
            d.upper@.len() == layers@.len(),
            d.pairs@.len() == (if layers@.len() > 0 { layers@.len() - 1 } else { 0 }),
            forall|i: int| 0 <= i < layers@.len() ==> #[trigger] d.wrong_way@[i] == demand_length(
                layers@[i],
                (if layers@[i].direction == H { layers@[i].width } else { spacing }) as int,
                (if layers@[i].direction == H { spacing } else { layers@[i].width }) as int,
            ),
            forall|i: int| 0 <= i < layers@.len() ==> #[trigger] d.lower@[i] == (if i < layers@.len() - 1 {
                pair_demand(*f, via_multiplier, pair_via(*f, layers@[i], layers@[i + 1]), layers@[i])
            } else {
                0
            }),
            forall|i: int| 0 <= i < layers@.len() ==> #[trigger] d.upper@[i] == (if i < layers@.len() - 1 {
                pair_demand(*f, via_multiplier, pair_via(*f, layers@[i], layers@[i + 1]), layers@[i + 1])
            } else {
                0
            }),
            forall|i: int| 0 <= i < layers@.len() - 1 ==> as_place(#[trigger] d.pairs@[i]) == pair_via(*f, layers@[i], layers@[i + 1]),
            forall|i: int|
                #![trigger d.lower@[i]]
                #![trigger d.upper@[i]]
                #![trigger d.wrong_way@[i]]
                0 <= i < layers@.len() ==> d.lower@[i] > i128::MIN && d.upper@[i] > i128::MIN && d.wrong_way@[i] > i128::MIN,
    {
        let n: usize = layers.len();
        let mut d = Demands { lower: Vec::new(), upper: Vec::new(), wrong_way: Vec::new(), pairs: Vec::new() };
        let mut i: usize = 0;
        while i < n
            invariant
                i <= n == layers@.len(),
                vias_fit(f.vias@),
                d.wrong_way@.len() == i,
                d.lower@.len() == i,
                d.upper@.len() == i,
                d.pairs@.len() == (if i < n { i as int } else if n > 0 { n - 1 } else { 0 }),
                forall|k: int| 0 <= k < i ==> #[trigger] d.wrong_way@[k] == demand_length(
                    layers@[k],
                    (if layers@[k].direction == H { layers@[k].width } else { spacing }) as int,
                    (if layers@[k].direction == H { spacing } else { layers@[k].width }) as int,
                ),
                forall|k: int| 0 <= k < i ==> #[trigger] d.lower@[k] == (if k < n - 1 {
                    pair_demand(*f, via_multiplier, pair_via(*f, layers@[k], layers@[k + 1]), layers@[k])
                } else {
                    0
                }),
                forall|k: int| 0 <= k < i ==> #[trigger] d.upper@[k] == (if k < n - 1 {
                    pair_demand(*f, via_multiplier, pair_via(*f, layers@[k], layers@[k + 1]), layers@[k + 1])
                } else {
                    0
                }),
                forall|k: int| 0 <= k < d.pairs@.len() ==> as_place(#[trigger] d.pairs@[k]) == pair_via(*f, layers@[k], layers@[k + 1]),
                forall|k: int|
                    #![trigger d.lower@[k]]
                    #![trigger d.upper@[k]]
                    #![trigger d.wrong_way@[k]]
                    0 <= k < i ==> d.lower@[k] > i128::MIN && d.upper@[k] > i128::MIN && d.wrong_way@[k] > i128::MIN,
            decreases n - i,
        {
            let l = &layers[i];
            let w: i128 = if l.direction == H {
                Design::via_demand_length(l, l.width, spacing)
            } else {
                Design::via_demand_length(l, spacing, l.width)
            };
            d.wrong_way.push(w);
            if i + 1 < n {
                let u = &layers[i + 1];
                let cut = cut_of(f, l.name.as_str());
                let chosen = Design::choose_via_for_pair(f, l.name.as_str(), u.name.as_str(), cut.as_str());
                assert(as_place(chosen) == pair_via(*f, layers@[i as int], layers@[i + 1]));
                d.lower.push(Design::pair_demand_of(f, via_multiplier, chosen, l));
                d.upper.push(Design::pair_demand_of(f, via_multiplier, chosen, u));
                d.pairs.push(chosen);
            } else {
                d.lower.push(0);
                d.upper.push(0);
            }
            i += 1;
        }
        d
    }

    /// The obstacles of the first `n` that lie on layer `l`.
    pub open spec fn obstacles_on(&self, skip_m1: bool, l: int, n: int) -> Seq<BoxT>
        decreases n,
    {
        if n <= 0 {
            Seq::empty()
        } else {
            let s = self.obstacles_on(skip_m1, l, n - 1);
            let o = self.obstacles@[n - 1];
            if o.layer == l && (o.layer > 0 || !skip_m1) { s.push(o.b) } else { s }
        }
    }

    /// The obstacles per layer; those of the lowest are dropped where asked.
    pub fn all_obstacles(&self, skip_m1: bool) -> (all: Vec<Vec<BoxT>>)
        requires
            forall|k: int| 0 <= k < self.obstacles@.len() ==> (#[trigger] self.obstacles@[k]).layer < self.layers@.len() && (self.obstacles@[k].layer >= 0 || (skip_m1 && self.obstacles@[k].layer <= 0)),
        ensures
            all@.len() == self.layers@.len(),
            forall|l: int| 0 <= l < all@.len() ==> (#[trigger] all@[l])@ == self.obstacles_on(skip_m1, l, self.obstacles@.len() as int),
    {
        let mut all: Vec<Vec<BoxT>> = Vec::new();
        let mut l: usize = 0;
        while l < self.layers.len()
            invariant
                l <= self.layers@.len(),
                all@.len() == l,
                forall|m: int| 0 <= m < l ==> (#[trigger] all@[m])@ == Seq::<BoxT>::empty(),
            decreases self.layers@.len() - l,
        {
            all.push(Vec::new());
            l += 1;
        }
        let mut k: usize = 0;
        while k < self.obstacles.len()
            invariant
                k <= self.obstacles@.len(),
                forall|k: int| 0 <= k < self.obstacles@.len() ==> (#[trigger] self.obstacles@[k]).layer < self.layers@.len() && (self.obstacles@[k].layer >= 0 || (skip_m1 && self.obstacles@[k].layer <= 0)),
                all@.len() == self.layers@.len(),
                forall|l: int| 0 <= l < all@.len() ==> (#[trigger] all@[l])@ == self.obstacles_on(skip_m1, l, k as int),
            decreases self.obstacles@.len() - k,
        {
            let o = self.obstacles[k];
            let ghost all0 = all@;
            assert(self.obstacles@[k as int].layer < self.layers@.len());
            if o.layer > 0 || !skip_m1 {
                let at: usize = o.layer as usize;
                all[at].push(o.b);
            }
            proof {
                assert forall|l: int| 0 <= l < all@.len() implies (#[trigger] all@[l])@ == self.obstacles_on(skip_m1, l, k + 1) by {
                    assert(all0[l]@ == self.obstacles_on(skip_m1, l, k as int));
                }
            }
            k += 1;
        }
        all
    }

    pub fn num_layers(&self) -> (n: usize)
        ensures
            n == self.layers@.len(),
    {
        self.layers.len()
    }

    /// The die's extent in one dimension.
    pub fn die_interval(&self, dimension: usize) -> (r: Interval)
        ensures
            r == self.die.side(dimension as int),
    {
        self.die.get(dimension)
    }
}

/// Whether the net at place `k` is the first refused.
pub open spec fn is_refused_at(f: DesignFacts, max_routing_layer: i32, k: int) -> bool {
    &&& 0 <= k < f.nets@.len()
    &&& is_wired(f.nets@[k])
    &&& has_off_layer(f.nets@[k], max_routing_layer)
    &&& forall|j: int| 0 <= j < k && is_wired(#[trigger] f.nets@[j]) ==> !has_off_layer(f.nets@[j], max_routing_layer)
}

/// Whether a name is that of the first net refused.
pub open spec fn is_first_refused(f: DesignFacts, max_routing_layer: i32, name: Seq<char>) -> bool {
    exists|k: int| #[trigger] is_refused_at(f, max_routing_layer, k) && f.nets@[k].name@ == name
}

/// The name of the cut layer above the first layer of a name.
fn cut_of(f: &DesignFacts, name: &str) -> (cut: String)
    ensures
        cut@ == cut_above(f.layers@, name@, 0),
{
    let mut k: usize = 0;
    while k < f.layers.len()
        invariant
            k <= f.layers@.len(),
            cut_above(f.layers@, name@, k as int) == cut_above(f.layers@, name@, 0),
        decreases f.layers@.len() - k,
    {
        if same_text(f.layers[k].name.as_str(), name) {
            return String::from_str(f.layers[k].upper_layer.as_str());
        }
        k += 1;
    }
    proof {
        reveal_strlit("");
    }
    let e = String::from_str("");
    assert(e@ =~= Seq::empty());
    e
}

proof fn lemma_routed(nets: Seq<NetFacts>, n: int, i: int)
    requires
        0 <= i < routed_nets(nets, n).len(),
        n <= nets.len(),
    ensures
        0 <= routed_nets(nets, n)[i] < n,
    decreases n,
{
    if n > 0 {
        let s = routed_nets(nets, n - 1);
        if i < s.len() {
            lemma_routed(nets, n - 1, i);
        }
    }
}

/// Every net read stands for a net of the block, and its pins are numbered in their order.
pub proof fn net_places_are_in_range(f: DesignFacts, via_multiplier: i32, min_routing_layer: i32, max_routing_layer: i32, d: Design, k: int)
    requires
        is_design_of(f, via_multiplier, min_routing_layer, max_routing_layer, d),
        0 <= k < d.nets@.len(),
    ensures
        d.nets@[k].facts_index < f.nets@.len(),
        is_routed(f.nets@[d.nets@[k].facts_index as int]),
        forall|p: int| 0 <= p < d.nets@[k].pins@.len() ==> (#[trigger] d.nets@[k].pins@[p]).index == p,
{
    let kept = routed_nets(f.nets@, f.nets@.len() as int);
    lemma_routed(f.nets@, f.nets@.len() as int, k);
    lemma_routed_kept(f.nets@, f.nets@.len() as int, k);
    assert(is_net_of(f, min_routing_layer, max_routing_layer, d.layers@.len() as int, kept[k], k, d.nets@[k]));
    assert forall|p: int| 0 <= p < d.nets@[k].pins@.len() implies (#[trigger] d.nets@[k].pins@[p]).index == p by {
        assert(is_pin_of(f.nets@[kept[k]].pins@[p], d.layers@.len() as int, p, d.nets@[k].pins@[p]));
    }
}

proof fn lemma_routed_kept(nets: Seq<NetFacts>, n: int, i: int)
    requires
        0 <= i < routed_nets(nets, n).len(),
        n <= nets.len(),
    ensures
        is_routed(nets[routed_nets(nets, n)[i]]),
    decreases n,
{
    if n > 0 {
        let s = routed_nets(nets, n - 1);
        if i < s.len() {
            lemma_routed_kept(nets, n - 1, i);
        }
    }
}

/// The layers kept are the routing layers with metal data up to the greatest routing level, in
/// order.
pub proof fn the_layers_kept_are_the_routing_layers_up_to_the_greatest(layers: Seq<TechLayerFacts>, max_routing_layer: i32, n: int)
    requires
        0 <= n,
    ensures
        kept_layers(layers, max_routing_layer, n) == all_of(
            n,
            |k: int| if layers[k].is_routing && layers[k].routing_level <= max_routing_layer && layers[k].metal is Some { seq![k] } else { Seq::empty() },
        ),
    decreases n,
{
    let f = |k: int| if layers[k].is_routing && layers[k].routing_level <= max_routing_layer && layers[k].metal is Some { seq![k] } else { Seq::empty() };
    if n > 0 {
        the_layers_kept_are_the_routing_layers_up_to_the_greatest(layers, max_routing_layer, n - 1);
        lemma_all_next(n - 1, f);
    } else {
        lemma_all_none(f);
    }
    assert(kept_layers(layers, max_routing_layer, n) =~= all_of(n, f));
}

/// The shapes of a pin are those on routing layers, in order, each on its own layer or, where
/// that lies above the layers kept, on the highest.
pub proof fn the_shapes_of_a_pin_are_those_on_routing_layers(shapes: Seq<Shape>, layers: int, n: int)
    requires
        0 <= n,
    ensures
        pin_shapes(shapes, layers, n) == all_of(
            n,
            |k: int| if shapes[k].layer is Some && shapes[k].layer->Some_0.is_routing { seq![BoxOnLayer { layer: (if shapes[k].layer->Some_0.routing_level <= layers { shapes[k].layer->Some_0.routing_level - 1 } else { layers - 1 }) as i32, b: box_of_rect(shapes[k].rect) }] } else { Seq::empty() },
        ),
    decreases n,
{
    let f = |k: int| if shapes[k].layer is Some && shapes[k].layer->Some_0.is_routing { seq![BoxOnLayer { layer: (if shapes[k].layer->Some_0.routing_level <= layers { shapes[k].layer->Some_0.routing_level - 1 } else { layers - 1 }) as i32, b: box_of_rect(shapes[k].rect) }] } else { Seq::empty() };
    if n > 0 {
        the_shapes_of_a_pin_are_those_on_routing_layers(shapes, layers, n - 1);
        lemma_all_next(n - 1, f);
    } else {
        lemma_all_none(f);
    }
    assert(pin_shapes(shapes, layers, n) =~= all_of(n, f));
}

/// The nets routed are those with two pins or more that are neither special nor a supply nor
/// wired already nor joined by abutment, in order.
pub proof fn the_nets_routed_are_the_signals_with_two_pins(nets: Seq<NetFacts>, n: int)
    requires
        0 <= n,
    ensures
        routed_nets(nets, n) == all_of(
            n,
            |k: int| if nets[k].pins@.len() < 2 || nets[k].is_special || nets[k].is_supply || nets[k].has_swires || nets[k].connected_by_abutment { Seq::empty() } else { seq![k] },
        ),
    decreases n,
{
    let f = |k: int| if nets[k].pins@.len() < 2 || nets[k].is_special || nets[k].is_supply || nets[k].has_swires || nets[k].connected_by_abutment { Seq::empty() } else { seq![k] };
    if n > 0 {
        the_nets_routed_are_the_signals_with_two_pins(nets, n - 1);
        lemma_all_next(n - 1, f);
    } else {
        lemma_all_none(f);
    }
    assert(routed_nets(nets, n) =~= all_of(n, f));
}

/// The shapes that obstruct are those on routing layers up to the greatest level, in order, each
/// on its own layer.
pub proof fn the_obstacles_are_the_shapes_on_routing_layers(shapes: Seq<Shape>, max_routing_layer: i32, n: int)
    requires
        0 <= n,
    ensures
        routing_obstacles(shapes, max_routing_layer, n) == all_of(
            n,
            |k: int| if shapes[k].layer is Some && shapes[k].layer->Some_0.is_routing && shapes[k].layer->Some_0.routing_level <= max_routing_layer { seq![BoxOnLayer { layer: (shapes[k].layer->Some_0.routing_level - 1) as i32, b: box_of_rect(shapes[k].rect) }] } else { Seq::empty() },
        ),
    decreases n,
{
    let f = |k: int| if shapes[k].layer is Some && shapes[k].layer->Some_0.is_routing && shapes[k].layer->Some_0.routing_level <= max_routing_layer { seq![BoxOnLayer { layer: (shapes[k].layer->Some_0.routing_level - 1) as i32, b: box_of_rect(shapes[k].rect) }] } else { Seq::empty() };
    if n > 0 {
        the_obstacles_are_the_shapes_on_routing_layers(shapes, max_routing_layer, n - 1);
        lemma_all_next(n - 1, f);
    } else {
        lemma_all_none(f);
    }
    assert(routing_obstacles(shapes, max_routing_layer, n) =~= all_of(n, f));
}

/// The boxes of special wires that obstruct are those up to the greatest level, but for a via's
/// boxes that lie on no routing level, in order.
pub proof fn the_wires_of_special_nets_obstruct(boxes: Seq<(Shape, bool)>, max_routing_layer: i32, n: int)
    requires
        0 <= n,
    ensures
        wire_obstacles(boxes, max_routing_layer, n) == all_of(
            n,
            |k: int| if level_of(boxes[k].0) <= max_routing_layer && (level_of(boxes[k].0) != 0 || !boxes[k].1) { seq![BoxOnLayer { layer: (level_of(boxes[k].0) - 1) as i32, b: box_of_rect(boxes[k].0.rect) }] } else { Seq::empty() },
        ),
    decreases n,
{
    let f = |k: int| if level_of(boxes[k].0) <= max_routing_layer && (level_of(boxes[k].0) != 0 || !boxes[k].1) { seq![BoxOnLayer { layer: (level_of(boxes[k].0) - 1) as i32, b: box_of_rect(boxes[k].0.rect) }] } else { Seq::empty() };
    if n > 0 {
        the_wires_of_special_nets_obstruct(boxes, max_routing_layer, n - 1);
        lemma_all_next(n - 1, f);
    } else {
        lemma_all_none(f);
    }
    assert(wire_obstacles(boxes, max_routing_layer, n) =~= all_of(n, f));
}

/// The nets whose wires obstruct are the special nets and the supplies that have wires, in order.
pub proof fn the_special_nets_that_obstruct_are_the_wired_ones(nets: Seq<NetFacts>, max_routing_layer: i32, n: int)
    requires
        0 <= n,
    ensures
        special_obstacles(nets, max_routing_layer, n) == all_of(
            n,
            |k: int| if nets[k].wire_count != 0 && (nets[k].is_special || nets[k].is_supply) { wire_obstacles(nets[k].swire_boxes@, max_routing_layer, nets[k].swire_boxes@.len() as int) } else { Seq::empty() },
        ),
    decreases n,
{
    let f = |k: int| if nets[k].wire_count != 0 && (nets[k].is_special || nets[k].is_supply) { wire_obstacles(nets[k].swire_boxes@, max_routing_layer, nets[k].swire_boxes@.len() as int) } else { Seq::empty() };
    if n > 0 {
        the_special_nets_that_obstruct_are_the_wired_ones(nets, max_routing_layer, n - 1);
        lemma_all_next(n - 1, f);
    } else {
        lemma_all_none(f);
    }
    assert(special_obstacles(nets, max_routing_layer, n) =~= all_of(n, f));
}

/// As many nets are counted as special nets and supplies have wires.
pub proof fn the_wired_nets_are_counted(nets: Seq<NetFacts>, n: int)
    requires
        0 <= n,
    ensures
        wired_count(nets, n) == count_of(
            n,
            |k: int| nets[k].wire_count != 0 && (nets[k].is_special || nets[k].is_supply),
        ),
    decreases n,
{
    let f = |k: int| nets[k].wire_count != 0 && (nets[k].is_special || nets[k].is_supply);
    if n > 0 {
        the_wired_nets_are_counted(nets, n - 1);
        lemma_count_next(n - 1, f);
    } else {
        lemma_count_none(f);
    }
}

/// A via has as many boxes on a layer as are listed with its name.
pub proof fn the_cuts_of_a_via_are_its_boxes_on_the_cut_layer(boxes: Seq<(String, Rect)>, layer: Seq<char>, n: int)
    requires
        0 <= n,
    ensures
        boxes_on(boxes, layer, n) == count_of(
            n,
            |k: int| boxes[k].0@ == layer,
        ),
    decreases n,
{
    let f = |k: int| boxes[k].0@ == layer;
    if n > 0 {
        the_cuts_of_a_via_are_its_boxes_on_the_cut_layer(boxes, layer, n - 1);
        lemma_count_next(n - 1, f);
    } else {
        lemma_count_none(f);
    }
}

/// A via encloses the area of its boxes on the lower and on the upper layer, the cut layer left
/// out.
pub proof fn the_enclosure_of_a_via_is_its_area_on_both_layers(boxes: Seq<(String, Rect)>, lower: Seq<char>, upper: Seq<char>, cut: Seq<char>, n: int)
    requires
        0 <= n,
    ensures
        enclosure(boxes, lower, upper, cut, n) == sum_of(
            n,
            |k: int| if boxes[k].0@ != cut && (boxes[k].0@ == lower || boxes[k].0@ == upper) { (boxes[k].1.2 - boxes[k].1.0) * (boxes[k].1.3 - boxes[k].1.1) } else { 0 },
        ),
    decreases n,
{
    let f = |k: int| if boxes[k].0@ != cut && (boxes[k].0@ == lower || boxes[k].0@ == upper) { (boxes[k].1.2 - boxes[k].1.0) * (boxes[k].1.3 - boxes[k].1.1) } else { 0 };
    if n > 0 {
        the_enclosure_of_a_via_is_its_area_on_both_layers(boxes, lower, upper, cut, n - 1);
        lemma_sum_next(n - 1, f);
    } else {
        lemma_sum_none(f);
    }
}

/// The via chosen for a pair of layers connects them, ranks after none that does, and before every one
/// ahead of it in the list. None is chosen only where none connects them.
pub proof fn no_via_of_a_pair_ranks_before_the_chosen(vias: Seq<TechViaFacts>, lower: Seq<char>, upper: Seq<char>, cut: Seq<char>, n: int)
    requires
        0 <= n <= vias.len(),
    ensures
        match best_via(vias, lower, upper, cut, n) {
            Some(k) => {
                &&& 0 <= k < n
                &&& vias[k].bottom@ == lower && vias[k].top@ == upper
                &&& forall|j: int|
                    0 <= j < n && connects(#[trigger] vias[j], lower, upper) ==> !ranks_before(
                        via_key(vias[j], lower, upper, cut),
                        via_key(vias[k], lower, upper, cut),
                    )
                &&& forall|j: int|
                    0 <= j < k && connects(#[trigger] vias[j], lower, upper) ==> ranks_before(
                        via_key(vias[k], lower, upper, cut),
                        via_key(vias[j], lower, upper, cut),
                    )
            },
            None => forall|j: int| 0 <= j < n ==> !connects(#[trigger] vias[j], lower, upper),
        },
    decreases n,
{
    if n > 0 {
        no_via_of_a_pair_ranks_before_the_chosen(vias, lower, upper, cut, n - 1);
    }
}

/// A marked default ranks first, then fewer cuts, then a default, then the smaller enclosure; of two ranks
/// that differ one comes before the other.
pub proof fn ranks_are_in_order(a: ViaKey, b: ViaKey)
    ensures
        !a.unmarked && b.unmarked ==> ranks_before(a, b),
        a.unmarked == b.unmarked && a.cuts < b.cuts ==> ranks_before(a, b),
        a.unmarked == b.unmarked && a.cuts == b.cuts && !a.plain && b.plain ==> ranks_before(a, b),
        a.unmarked == b.unmarked && a.cuts == b.cuts && a.plain == b.plain && a.area < b.area ==> ranks_before(a, b),
        ranks_before(a, b) ==> !ranks_before(b, a),
        !ranks_before(a, a),
{
}

/// The pad of a via on a layer is the least box around its boxes there: it holds each of them, and every
/// side is that of one.
pub proof fn a_pad_is_the_least_box_around_its_boxes(boxes: Seq<(String, Rect)>, layer: Seq<char>, n: int)
    requires
        0 <= n <= boxes.len(),
    ensures
        ({
            let m = merged(boxes, layer, n);
            &&& forall|i: int|
                0 <= i < n && (#[trigger] boxes[i]).0@ == layer ==> m.0 <= boxes[i].1.0 && m.1 <= boxes[i].1.1 && boxes[i].1.2 <= m.2 && boxes[i].1.3 <= m.3
            &&& m.0 == i32::MAX || exists|i: int| 0 <= i < n && (#[trigger] boxes[i]).0@ == layer && boxes[i].1.0 == m.0
            &&& m.1 == i32::MAX || exists|i: int| 0 <= i < n && (#[trigger] boxes[i]).0@ == layer && boxes[i].1.1 == m.1
            &&& m.2 == i32::MIN || exists|i: int| 0 <= i < n && (#[trigger] boxes[i]).0@ == layer && boxes[i].1.2 == m.2
            &&& m.3 == i32::MIN || exists|i: int| 0 <= i < n && (#[trigger] boxes[i]).0@ == layer && boxes[i].1.3 == m.3
        }),
    decreases n,
{
    if n > 0 {
        a_pad_is_the_least_box_around_its_boxes(boxes, layer, n - 1);
        let (a, m) = (merged(boxes, layer, n - 1), merged(boxes, layer, n));
        let last = boxes[n - 1];
        if m.0 == a.0 && m.0 != i32::MAX {
            let i = choose|i: int| 0 <= i < n - 1 && (#[trigger] boxes[i]).0@ == layer && boxes[i].1.0 == a.0;
            assert(boxes[i].0@ == layer);
        }
        if m.1 == a.1 && m.1 != i32::MAX {
            let i = choose|i: int| 0 <= i < n - 1 && (#[trigger] boxes[i]).0@ == layer && boxes[i].1.1 == a.1;
            assert(boxes[i].0@ == layer);
        }
        if m.2 == a.2 && m.2 != i32::MIN {
            let i = choose|i: int| 0 <= i < n - 1 && (#[trigger] boxes[i]).0@ == layer && boxes[i].1.2 == a.2;
            assert(boxes[i].0@ == layer);
        }
        if m.3 == a.3 && m.3 != i32::MIN {
            let i = choose|i: int| 0 <= i < n - 1 && (#[trigger] boxes[i]).0@ == layer && boxes[i].1.3 == a.3;
            assert(boxes[i].0@ == layer);
        }
        assert(m != a ==> last.0@ == layer);
    }
}

/// The obstacles of a layer are those that lie on it, in order; those of the lowest are left out
/// where asked.
pub proof fn the_obstacles_of_a_layer_are_those_on_it(d: Design, skip_m1: bool, l: int, n: int)
    requires
        0 <= n,
    ensures
        d.obstacles_on(skip_m1, l, n) == all_of(
            n,
            |k: int| if d.obstacles@[k].layer == l && !(skip_m1 && l <= 0) { seq![d.obstacles@[k].b] } else { Seq::empty() },
        ),
    decreases n,
{
    let f = |k: int| if d.obstacles@[k].layer == l && !(skip_m1 && l <= 0) { seq![d.obstacles@[k].b] } else { Seq::empty() };
    if n > 0 {
        the_obstacles_of_a_layer_are_those_on_it(d, skip_m1, l, n - 1);
        lemma_all_next(n - 1, f);
    } else {
        lemma_all_none(f);
    }
    assert(d.obstacles_on(skip_m1, l, n) =~= all_of(n, f));
}

} // verus!
