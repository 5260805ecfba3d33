//! One net as the router holds it: the gcells that each pin's shapes touch, the box around them, and
//! which pin drives the net.

use crate::lists::{all_of, lemma_all_next, lemma_all_none};
use vstd::prelude::*;
use vstd::string::StringExecFns;

use crate::callbacks::same_text;
use crate::cugr::design::{BoxOnLayer, CugrNet, CugrPin, LayerRange};
use crate::cugr::geo::{bound, BoxT, Interval, Point};
use crate::cugr::grid_graph::{rows_within, GridError, GridGraph};
use crate::cugr::tree::GrTree;

verus! {

/// A gcell on a layer.
#[derive(Debug, Clone, Copy, PartialEq, Eq, Structural)]
pub struct GrPoint {
    pub layer: i32,
    pub p: Point,
}

/// How a pin's cell was chosen: the place in the pin's list, how accessible it is, how far it lies from
/// the middle of the net, and that middle.
#[derive(Debug, Clone, Copy, PartialEq, Eq, Structural)]
pub struct ApChoice {
    pub pin: usize,
    pub index: usize,
    pub accessibility: i32,
    pub distance: i64,
    pub center: Point,
}

/// A net as the router holds it.
#[derive(Debug)]
pub struct GrNet {
    pub index: usize,
    pub name: String,
    /// The gcells that each pin's shapes overlap, each once, in the order they are met.
    pub pin_access_points: Vec<Vec<GrPoint>>,
    pub bounding_box: BoxT,
    /// The pin that is the net's first driver terminal, -1 when none is.
    pub driver_pin_index: i32,
    pub layer_range: LayerRange,
    /// The chosen cell of each pin and the pin's own layers, where it is chosen.
    pub preferred_aps: Vec<Option<(Point, Interval)>>,
    pub routing_tree: Option<GrTree>,
    pub shape_ap_choices: Vec<ApChoice>,
    /// Whether the net was put back to the default rule.
    pub soft_ndr: bool,
    /// Whether the tree was taken over from a route.
    pub adopted: bool,
}

/// The cells of a column of a box, from `y` on.
pub open spec fn column_cells(layer: i32, x: int, y: int, hy: int) -> Seq<GrPoint>
    decreases hy - y + 1,
{
    if y > hy { Seq::empty() } else { seq![GrPoint { layer, p: Point { x: x as i32, y: y as i32 } }] + column_cells(layer, x, y + 1, hy) }
}

/// The cells of a box from column `x` on: x outer, y inner.
pub open spec fn box_cells(layer: i32, x: int, hx: int, ly: int, hy: int) -> Seq<GrPoint>
    decreases hx - x + 1,
{
    if x > hx { Seq::empty() } else { column_cells(layer, x, ly, hy) + box_cells(layer, x + 1, hx, ly, hy) }
}

/// Cells with the first `n` of others added, each once.
pub open spec fn with_cells(cells: Seq<GrPoint>, more: Seq<GrPoint>, n: int) -> Seq<GrPoint>
    decreases n,
{
    if n <= 0 {
        cells
    } else {
        let s = with_cells(cells, more, n - 1);
        if s.contains(more[n - 1]) { s } else { s.push(more[n - 1]) }
    }
}

/// The cells that a shape overlaps.
pub open spec fn shape_cells(g: GridGraph, s: BoxOnLayer) -> Seq<GrPoint> {
    let (lx, hx) = rows_within(g.gridlines@[0]@, s.b.x)->0;
    let (ly, hy) = rows_within(g.gridlines@[1]@, s.b.y)->0;
    if lx <= hx && ly <= hy { box_cells(s.layer, lx, hx, ly, hy) } else { Seq::empty() }
}

/// Whether a shape lies wholly outside the die.
pub open spec fn is_shape_outside(g: GridGraph, s: BoxOnLayer) -> bool {
    rows_within(g.gridlines@[0]@, s.b.x) is None || rows_within(g.gridlines@[1]@, s.b.y) is None
}

/// The error of a shape that lies outside: its x side where that does, else its y side.
pub open spec fn shape_error(g: GridGraph, s: BoxOnLayer) -> GridError {
    if rows_within(g.gridlines@[0]@, s.b.x) is None {
        GridError::ShapeOutsideDie { dimension: 0, low: s.b.x.low, high: s.b.x.high }
    } else {
        GridError::ShapeOutsideDie { dimension: 1, low: s.b.y.low, high: s.b.y.high }
    }
}

/// The cells of the first `n` shapes of a pin, each once.
pub open spec fn pin_cells(g: GridGraph, shapes: Seq<BoxOnLayer>, n: int) -> Seq<GrPoint>
    decreases n,
{
    if n <= 0 {
        Seq::empty()
    } else {
        with_cells(pin_cells(g, shapes, n - 1), shape_cells(g, shapes[n - 1]), shape_cells(g, shapes[n - 1]).len() as int)
    }
}

/// The cells of the first `n` pins, one after the other.
pub open spec fn flat_cells(pins: Seq<Vec<GrPoint>>, n: int) -> Seq<Point>
    decreases n,
{
    if n <= 0 { Seq::empty() } else { flat_cells(pins, n - 1) + pins[n - 1]@.map_values(|c: GrPoint| c.p) }
}

/// The terminal of a pin, as drivers are named.
pub open spec fn terminal_of(pin: CugrPin) -> Seq<char> {
    (if pin.is_port { "B:"@ } else { "I:"@ }) + pin.name@
}

/// The cells of place `i` once the first `n` pins are read: those of every pin that has the place, one pin's after
/// the other's.
pub open spec fn cells_at(g: GridGraph, pins: Seq<CugrPin>, i: int, n: int) -> Seq<GrPoint>
    decreases n,
{
    if n <= 0 {
        Seq::empty()
    } else {
        let p = pins[n - 1];
        cells_at(g, pins, i, n - 1) + (if p.index == i { pin_cells(g, p.shapes@, p.shapes@.len() as int) } else { Seq::empty() })
    }
}

/// The place of the last of the first `n` pins that is the driver terminal, -1 if none is.
pub open spec fn driver_of(pins: Seq<CugrPin>, driver_term: Seq<char>, n: int) -> int
    decreases n,
{
    if n <= 0 { -1 } else if terminal_of(pins[n - 1]) == driver_term { pins[n - 1].index as int } else { driver_of(pins, driver_term, n - 1) }
}

/// Whether the shape at place `s` of pin `k` is the first that lies outside.
pub open spec fn is_first_shape_outside(g: GridGraph, net: CugrNet, k: int, s: int) -> bool {
    &&& 0 <= k < net.pins@.len()
    &&& 0 <= s < net.pins@[k].shapes@.len()
    &&& is_shape_outside(g, net.pins@[k].shapes@[s])
    &&& forall|j: int| 0 <= j < s ==> !is_shape_outside(g, #[trigger] net.pins@[k].shapes@[j])
    &&& all_shapes_inside(g, net, k)
}

/// Whether every shape of the first `n` pins meets the die.
pub open spec fn all_shapes_inside(g: GridGraph, net: CugrNet, n: int) -> bool {
    forall|k: int, s: int| 0 <= k < n && 0 <= s < net.pins@[k].shapes@.len() ==> !is_shape_outside(g, #[trigger] net.pins@[k].shapes@[s])
}

/// Whether a net is the one that the design's gives.
pub open spec fn is_grnet_of(g: GridGraph, net: CugrNet, driver_term: Seq<char>, r: GrNet) -> bool {
    &&& r.index == net.index
    &&& r.name@ == net.name@
    &&& r.pin_access_points@.len() == net.pins@.len()
    &&& forall|k: int|
        0 <= k < net.pins@.len() ==> (#[trigger] r.pin_access_points@[k])@ == cells_at(g, net.pins@, k, net.pins@.len() as int)
    &&& r.bounding_box == bound(flat_cells(r.pin_access_points@, net.pins@.len() as int), flat_cells(r.pin_access_points@, net.pins@.len() as int).len() as int)
    &&& r.driver_pin_index == driver_of(net.pins@, driver_term, net.pins@.len() as int)
    &&& r.layer_range == net.layer_range
    &&& r.preferred_aps@ == Seq::new(net.pins@.len(), |k: int| None::<(Point, Interval)>)
    &&& r.routing_tree is None
    &&& r.shape_ap_choices@ == Seq::<ApChoice>::empty()
    &&& !r.soft_ndr
    &&& !r.adopted
}

proof fn lemma_bound_prefix(a: Seq<Point>, b: Seq<Point>, n: int)
    requires
        n <= a.len(),
        n <= b.len(),
        forall|i: int| 0 <= i < n ==> a[i] == b[i],
    ensures
        bound(a, n) == bound(b, n),
    decreases n,
{
    if n > 0 {
        lemma_bound_prefix(a, b, n - 1);
    }
}

fn add_cell(cells: &mut Vec<GrPoint>, c: GrPoint)
    ensures
        final(cells)@ == (if old(cells)@.contains(c) { old(cells)@ } else { old(cells)@.push(c) }),
{
    let mut k: usize = 0;
    while k < cells.len()
        invariant
            k <= cells@.len(),
            cells@ == old(cells)@,
            forall|j: int| 0 <= j < k ==> cells@[j] != c,
        decreases cells@.len() - k,
    {
        if cells[k] == c {
            assert(cells@[k as int] == c);
            return;
        }
        k += 1;
    }
    cells.push(c);
}

fn add_shape_cells(cells: &mut Vec<GrPoint>, layer: i32, b: &BoxT)
    requires
        b.x.low <= b.x.high < i32::MAX,
        b.y.low <= b.y.high < i32::MAX,
    ensures
        ({
            let more = box_cells(layer, b.x.low as int, b.x.high as int, b.y.low as int, b.y.high as int);
            final(cells)@ == with_cells(old(cells)@, more, more.len() as int)
        }),
{
    let ghost more = box_cells(layer, b.x.low as int, b.x.high as int, b.y.low as int, b.y.high as int);
    let ghost cells0 = cells@;
    let ghost mut done: Seq<GrPoint> = Seq::empty();
    let mut x: i32 = b.x.low;
    assert(done + box_cells(layer, x as int, b.x.high as int, b.y.low as int, b.y.high as int) =~= more);
    while x <= b.x.high
        invariant
            b.x.low <= x <= b.x.high + 1,
            b.x.high < i32::MAX,
            b.y.low <= b.y.high < i32::MAX,
            more == done + box_cells(layer, x as int, b.x.high as int, b.y.low as int, b.y.high as int),
            cells@ == with_cells(cells0, more, done.len() as int),
        decreases b.x.high - x + 1,
    {
        let ghost rest = box_cells(layer, x + 1, b.x.high as int, b.y.low as int, b.y.high as int);
        let mut y: i32 = b.y.low;
        assert(more =~= done + column_cells(layer, x as int, y as int, b.y.high as int) + rest);
        while y <= b.y.high
            invariant
                b.y.low <= y <= b.y.high + 1,
                b.y.high < i32::MAX,
                more == done + column_cells(layer, x as int, y as int, b.y.high as int) + rest,
                cells@ == with_cells(cells0, more, done.len() as int),
            decreases b.y.high - y + 1,
        {
            let c = GrPoint { layer, p: Point { x, y } };
            add_cell(cells, c);
            proof {
                assert(more[done.len() as int] == c);
                assert(more =~= done.push(c) + column_cells(layer, x as int, y + 1, b.y.high as int) + rest);
                done = done.push(c);
            }
            y += 1;
        }
        assert(more =~= done + rest);
        x += 1;
    }
    assert(more =~= done);
}

/// The box around the cells of all pins.
fn box_around(pins: &Vec<Vec<GrPoint>>) -> (b: BoxT)
    ensures
        b == bound(flat_cells(pins@, pins@.len() as int), flat_cells(pins@, pins@.len() as int).len() as int),
{
    let mut b = BoxT { x: Interval { low: i32::MAX, high: i32::MIN }, y: Interval { low: i32::MAX, high: i32::MIN } };
    let mut k: usize = 0;
    while k < pins.len()
        invariant
            k <= pins@.len(),
            b == bound(flat_cells(pins@, k as int), flat_cells(pins@, k as int).len() as int),
        decreases pins@.len() - k,
    {
        let cells = &pins[k];
        let ghost flat0 = flat_cells(pins@, k as int);
        let ghost own = cells@.map_values(|c: GrPoint| c.p);
        proof {
            lemma_bound_prefix(flat0, flat0 + own, flat0.len() as int);
        }
        let mut j: usize = 0;
        while j < cells.len()
            invariant
                j <= cells@.len(),
                own == cells@.map_values(|c: GrPoint| c.p),
                b == bound(flat0 + own, flat0.len() + j),
            decreases cells@.len() - j,
        {
            b.update(cells[j].p);
            assert((flat0 + own)[flat0.len() + j] == cells@[j as int].p);
            j += 1;
        }
        k += 1;
    }
    b
}

impl GrNet {
    /// A net from the design's: the cells of every pin at the pin's place, the box around them all, and the
    /// place of the pin that is the driver terminal. Refused where a shape lies wholly outside the die.
    pub fn new(net: &CugrNet, driver_term: &str, grid: &GridGraph) -> (r: Result<GrNet, GridError>)
        requires
            grid.wf(),
            net.pins@.len() <= i32::MAX,
            forall|k: int| 0 <= k < net.pins@.len() ==> (#[trigger] net.pins@[k]).index < net.pins@.len(),
        ensures
            match r {
                Ok(n) => all_shapes_inside(*grid, *net, net.pins@.len() as int) && is_grnet_of(*grid, *net, driver_term@, n),
                Err(e) => exists|k: int, s: int| #[trigger] is_first_shape_outside(*grid, *net, k, s) && e == shape_error(*grid, net.pins@[k].shapes@[s]),
            },
    {
        let total: usize = net.pins.len();
        let mut pin_access_points: Vec<Vec<GrPoint>> = Vec::new();
        while pin_access_points.len() < total
            invariant
                pin_access_points@.len() <= total,
                forall|i: int| 0 <= i < pin_access_points@.len() ==> (#[trigger] pin_access_points@[i])@ == Seq::<GrPoint>::empty(),
            decreases total - pin_access_points@.len(),
        {
            pin_access_points.push(Vec::new());
        }
        let mut driver_pin_index: i32 = -1;
        let mut k: usize = 0;
        while k < total
            invariant
                grid.wf(),
                total == net.pins@.len() <= i32::MAX,
                forall|k: int| 0 <= k < net.pins@.len() ==> (#[trigger] net.pins@[k]).index < net.pins@.len(),
                k <= total,
                all_shapes_inside(*grid, *net, k as int),
                pin_access_points@.len() == total,
                forall|i: int| 0 <= i < total ==> (#[trigger] pin_access_points@[i])@ == cells_at(*grid, net.pins@, i, k as int),
                driver_pin_index == driver_of(net.pins@, driver_term@, k as int),
            decreases total - k,
        {
            let pin = &net.pins[k];
            let mut cells: Vec<GrPoint> = Vec::new();
            let mut s: usize = 0;
            while s < pin.shapes.len()
                invariant
                    grid.wf(),
                    k < net.pins@.len(),
                    *pin == net.pins@[k as int],
                    all_shapes_inside(*grid, *net, k as int),
                    s <= pin.shapes@.len(),
                    forall|j: int| 0 <= j < s ==> !is_shape_outside(*grid, #[trigger] net.pins@[k as int].shapes@[j]),
                    cells@ == pin_cells(*grid, pin.shapes@, s as int),
                decreases pin.shapes@.len() - s,
            {
                let shape = pin.shapes[s];
                match grid.range_search_cells(&shape.b) {
                    Ok(found) => {
                        if found.is_valid() {
                            proof {
                                grid.rows_stay_in_the_grid(0, shape.b.x);
                                grid.rows_stay_in_the_grid(1, shape.b.y);
                            }
                            add_shape_cells(&mut cells, shape.layer, &found);
                        }
                    },
                    Err(e) => {
                        assert(is_shape_outside(*grid, net.pins@[k as int].shapes@[s as int]));
                        assert(is_first_shape_outside(*grid, *net, k as int, s as int));
                        return Err(e);
                    },
                }
                s += 1;
            }
            let mut term = if pin.is_port { String::from_str("B:") } else { String::from_str("I:") };
            term.append(pin.name.as_str());
            if same_text(term.as_str(), driver_term) {
                driver_pin_index = pin.index as i32;
            }
            let at: usize = pin.index;
            assert(net.pins@[k as int].index < total);
            let ghost before = pin_access_points@;
            let ghost own = cells@;
            pin_access_points[at].append(&mut cells);
            proof {
                assert forall|i: int| 0 <= i < total implies (#[trigger] pin_access_points@[i])@ == cells_at(*grid, net.pins@, i, k + 1) by {
                    if i == at {
                        assert(pin_access_points@[i]@ =~= before[i]@ + own);
                    } else {
                        assert(pin_access_points@[i] == before[i]);
                        assert(cells_at(*grid, net.pins@, i, k + 1) =~= cells_at(*grid, net.pins@, i, k as int));
                    }
                }
            }
            k += 1;
        }
        let bounding_box = box_around(&pin_access_points);
        let preferred_aps: Vec<Option<(Point, Interval)>> = crate::vecs::filled(None, total);
        assert(preferred_aps@ =~= Seq::new(net.pins@.len(), |k: int| None::<(Point, Interval)>));
        Ok(
            GrNet {
                index: net.index,
                name: String::from_str(net.name.as_str()),
                pin_access_points,
                bounding_box,
                driver_pin_index,
                layer_range: net.layer_range,
                preferred_aps,
                routing_tree: None,
                shape_ap_choices: Vec::new(),
                soft_ndr: false,
                adopted: false,
            },
        )
    }

    /// Whether a layer is one of the net's.
    pub fn is_inside_layer_range(&self, layer: i32) -> (r: bool)
        ensures
            r == (self.layer_range.min_layer <= layer <= self.layer_range.max_layer),
    {
        layer >= self.layer_range.min_layer && layer <= self.layer_range.max_layer
    }

    /// The driver pin's chosen cell.
    pub open spec fn driver_cell(&self) -> Option<Point> {
        if 0 <= self.driver_pin_index < self.preferred_aps@.len() {
            match self.preferred_aps@[self.driver_pin_index as int] {
                Some((p, _)) => Some(p),
                None => None,
            }
        } else {
            None
        }
    }

    /// The driver pin's chosen cell, if it has one.
    pub fn driver_access_point(&self) -> (r: Option<Point>)
        ensures
            r == self.driver_cell(),
    {
        if self.driver_pin_index < 0 || self.driver_pin_index as usize >= self.preferred_aps.len() {
            return None;
        }
        match self.preferred_aps[self.driver_pin_index as usize] {
            Some((p, _)) => Some(p),
            None => None,
        }
    }

    pub fn num_pins(&self) -> (n: usize)
        ensures
            n == self.pin_access_points@.len(),
    {
        self.pin_access_points.len()
    }
}

/// The places of all pins are those of the cells of each pin, one pin after the other.
pub proof fn the_cells_of_pins_are_listed_pin_by_pin(pins: Seq<Vec<GrPoint>>, n: int)
    requires
        0 <= n,
    ensures
        flat_cells(pins, n) == all_of(
            n,
            |k: int| pins[k]@.map_values(|c: GrPoint| c.p),
        ),
    decreases n,
{
    let f = |k: int| pins[k]@.map_values(|c: GrPoint| c.p);
    if n > 0 {
        the_cells_of_pins_are_listed_pin_by_pin(pins, n - 1);
        lemma_all_next(n - 1, f);
    } else {
        lemma_all_none(f);
    }
    assert(flat_cells(pins, n) =~= all_of(n, f));
}

/// The cells of an index are those of the pins that have it.
pub proof fn the_cells_at_an_index_are_those_of_its_pins(g: GridGraph, pins: Seq<CugrPin>, i: int, n: int)
    requires
        0 <= n,
    ensures
        cells_at(g, pins, i, n) == all_of(
            n,
            |k: int| if pins[k].index == i { pin_cells(g, pins[k].shapes@, pins[k].shapes@.len() as int) } else { Seq::empty() },
        ),
    decreases n,
{
    let f = |k: int| if pins[k].index == i { pin_cells(g, pins[k].shapes@, pins[k].shapes@.len() as int) } else { Seq::empty() };
    if n > 0 {
        the_cells_at_an_index_are_those_of_its_pins(g, pins, i, n - 1);
        lemma_all_next(n - 1, f);
    } else {
        lemma_all_none(f);
    }
    assert(cells_at(g, pins, i, n) =~= all_of(n, f));
}

proof fn lemma_in_column(layer: i32, x: int, y: int, hy: int, c: GrPoint)
    requires
        i32::MIN <= x <= i32::MAX,
        i32::MIN <= y,
        hy <= i32::MAX,
    ensures
        column_cells(layer, x, y, hy).contains(c) <==> c.layer == layer && c.p.x == x && y <= c.p.y <= hy,
    decreases hy - y + 1,
{
    if y <= hy {
        lemma_in_column(layer, x, y + 1, hy, c);
        let head = GrPoint { layer, p: Point { x: x as i32, y: y as i32 } };
        lemma_in_either(seq![head], column_cells(layer, x, y + 1, hy), c);
        assert(seq![head].contains(c) <==> c == head) by {
            assert(seq![head][0] == head);
        }
        if c.layer == layer && c.p.x == x && c.p.y == y {
            assert(c == head);
        }
    }
}

proof fn lemma_in_either(a: Seq<GrPoint>, b: Seq<GrPoint>, c: GrPoint)
    ensures
        (a + b).contains(c) <==> a.contains(c) || b.contains(c),
{
    let s = a + b;
    if a.contains(c) {
        let i = choose|i: int| 0 <= i < a.len() && a[i] == c;
        assert(s[i] == c);
    }
    if b.contains(c) {
        let i = choose|i: int| 0 <= i < b.len() && b[i] == c;
        assert(s[a.len() + i] == c);
    }
    if s.contains(c) {
        let i = choose|i: int| 0 <= i < s.len() && s[i] == c;
        if i < a.len() {
            assert(a[i] == c);
        } else {
            assert(b[i - a.len()] == c);
        }
    }
}

/// The cells of a box are all those of its layer that lie in it.
pub proof fn the_cells_of_a_box_are_those_in_it(layer: i32, x: int, hx: int, ly: int, hy: int, c: GrPoint)
    requires
        i32::MIN <= x,
        hx <= i32::MAX,
        i32::MIN <= ly,
        hy <= i32::MAX,
    ensures
        box_cells(layer, x, hx, ly, hy).contains(c) <==> c.layer == layer && x <= c.p.x <= hx && ly <= c.p.y <= hy,
    decreases hx - x + 1,
{
    if x <= hx {
        the_cells_of_a_box_are_those_in_it(layer, x + 1, hx, ly, hy, c);
        lemma_in_column(layer, x, ly, hy, c);
        lemma_in_either(column_cells(layer, x, ly, hy), box_cells(layer, x + 1, hx, ly, hy), c);
    }
}

/// Adding cells adds each that is not there yet, once, and takes none away.
pub proof fn cells_are_added_once(cells: Seq<GrPoint>, more: Seq<GrPoint>, n: int, c: GrPoint)
    requires
        0 <= n <= more.len(),
        cells.no_duplicates(),
    ensures
        with_cells(cells, more, n).no_duplicates(),
        with_cells(cells, more, n).contains(c) <==> cells.contains(c) || exists|i: int| 0 <= i < n && #[trigger] more[i] == c,
    decreases n,
{
    if n > 0 {
        cells_are_added_once(cells, more, n - 1, c);
        let s = with_cells(cells, more, n - 1);
        let last = more[n - 1];
        lemma_in_either(s, seq![last], c);
        assert(s.push(last) =~= s + seq![last]);
        assert(seq![last].contains(c) <==> c == last) by {
            assert(seq![last][0] == last);
        }
        if !s.contains(last) {
            let t = s.push(last);
            assert forall|i: int, j: int| 0 <= i < t.len() && 0 <= j < t.len() && i != j implies t[i] != t[j] by {
                if i == s.len() {
                    assert(s.contains(s[j]));
                } else if j == s.len() {
                    assert(s.contains(s[i]));
                }
            }
        }
        if exists|i: int| 0 <= i < n && #[trigger] more[i] == c {
            let i = choose|i: int| 0 <= i < n && #[trigger] more[i] == c;
            if i < n - 1 {
                assert(more[i] == c);
            }
        }
        if c == last {
            assert(more[n - 1] == c);
        }
    }
}

/// The cells of a pin are all those that one of its shapes overlaps, each once.
pub proof fn the_cells_of_a_pin_are_those_of_its_shapes(g: GridGraph, shapes: Seq<BoxOnLayer>, n: int, c: GrPoint)
    requires
        0 <= n <= shapes.len(),
    ensures
        pin_cells(g, shapes, n).no_duplicates(),
        pin_cells(g, shapes, n).contains(c) <==> exists|k: int| 0 <= k < n && shape_cells(g, #[trigger] shapes[k]).contains(c),
    decreases n,
{
    if n > 0 {
        the_cells_of_a_pin_are_those_of_its_shapes(g, shapes, n - 1, c);
        let more = shape_cells(g, shapes[n - 1]);
        cells_are_added_once(pin_cells(g, shapes, n - 1), more, more.len() as int, c);
        if pin_cells(g, shapes, n - 1).contains(c) {
            let k = choose|k: int| 0 <= k < n - 1 && shape_cells(g, #[trigger] shapes[k]).contains(c);
            assert(shape_cells(g, shapes[k]).contains(c));
        }
        if more.contains(c) {
            assert(shape_cells(g, shapes[n - 1]).contains(c));
            let i = choose|i: int| 0 <= i < more.len() && more[i] == c;
            assert(more[i] == c);
        }
        if pin_cells(g, shapes, n).contains(c) && !pin_cells(g, shapes, n - 1).contains(c) {
            let i = choose|i: int| 0 <= i < more.len() && #[trigger] more[i] == c;
            assert(more.contains(c));
        }
        if exists|k: int| 0 <= k < n && shape_cells(g, #[trigger] shapes[k]).contains(c) {
            let k = choose|k: int| 0 <= k < n && shape_cells(g, #[trigger] shapes[k]).contains(c);
            if k < n - 1 {
                assert(shape_cells(g, shapes[k]).contains(c));
            }
        }
    }
}

/// The driver is the last pin that is the driver terminal; there is none where no pin is.
pub proof fn the_driver_is_the_last_pin_of_its_terminal(pins: Seq<CugrPin>, driver_term: Seq<char>, n: int)
    requires
        0 <= n <= pins.len(),
    ensures
        driver_of(pins, driver_term, n) == -1 && (forall|k: int| 0 <= k < n ==> terminal_of(#[trigger] pins[k]) != driver_term) || exists|k: int|
            0 <= k < n && #[trigger] terminal_of(pins[k]) == driver_term && driver_of(pins, driver_term, n) == pins[k].index && (forall|j: int|
                k < j < n ==> terminal_of(#[trigger] pins[j]) != driver_term),
    decreases n,
{
    if n > 0 {
        the_driver_is_the_last_pin_of_its_terminal(pins, driver_term, n - 1);
        if terminal_of(pins[n - 1]) != driver_term && exists|k: int| 0 <= k < n - 1 && #[trigger] terminal_of(pins[k]) == driver_term {
            let k = choose|k: int|
                0 <= k < n - 1 && #[trigger] terminal_of(pins[k]) == driver_term && driver_of(pins, driver_term, n - 1) == pins[k].index && (forall|j: int|
                    k < j < n - 1 ==> terminal_of(#[trigger] pins[j]) != driver_term);
            assert(terminal_of(pins[k]) == driver_term);
            assert forall|j: int| k < j < n implies terminal_of(#[trigger] pins[j]) != driver_term by {}
        }
    }
}

} // verus!
