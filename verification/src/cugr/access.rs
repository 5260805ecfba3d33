//! Which cell each pin of a net is reached at: the most accessible of those that its shapes touch, and of
//! these the nearest to the middle of the net.

use vstd::prelude::*;
use vstd::string::StringExecFns;

use crate::cugr::geo::{high_of, low_of, Interval, Point};
use crate::cugr::grid_graph::{coord, flag_at, flags_cover, moved, Flags, GridGraph};
use crate::cugr::grnet::{ApChoice, GrNet, GrPoint};
use crate::grids::tdiv;
use crate::text::{dec, push_nat, push_text, texts};

verus! {

/// A cell and the layers that its pins need together.
#[derive(Debug, Clone, Copy, PartialEq)]
pub struct AccessPoint {
    pub p: Point,
    pub layers: Interval,
}

/// The cells that a net is reached at, each once, by x and then y.
pub type AccessPointMap = Vec<AccessPoint>;

/// Whether a point comes before another: by x, then by y.
pub open spec fn point_before(a: Point, b: Point) -> bool {
    a.x < b.x || (a.x == b.x && a.y < b.y)
}

/// Whether points stand in order, each once.
pub open spec fn is_map(m: Seq<AccessPoint>) -> bool {
    forall|i: int, j: int| 0 <= i < j < m.len() ==> point_before((#[trigger] m[i]).p, (#[trigger] m[j]).p)
}

/// A map with layers added at a point, searched from the `k`-th entry on.
pub open spec fn with_layers(m: Seq<AccessPoint>, p: Point, layers: Interval, k: int) -> Seq<AccessPoint>
    decreases m.len() - k,
{
    if k >= m.len() {
        m.push(AccessPoint { p, layers })
    } else if m[k].p == p {
        m.update(k, AccessPoint { p, layers: m[k].layers.hull(layers) })
    } else if point_before(p, m[k].p) {
        m.insert(k, AccessPoint { p, layers })
    } else {
        with_layers(m, p, layers, k + 1)
    }
}

/// How accessible a cell is: on a routed layer the number of its edges, the one at it and the one before
/// it, that hold a whole track; one below.
pub open spec fn accessibility(g: GridGraph, open: Flags, c: GrPoint) -> int {
    if c.layer < g.min_routing_layer {
        1
    } else {
        let d = g.layer_directions@[c.layer as int] as int;
        (if flag_at(open, c.layer as int, c.p) { 1int } else { 0int }) + (if coord(c.p, d) > 0 && flag_at(open, c.layer as int, moved(c.p, d, coord(c.p, d) - 1)) {
            1int
        } else {
            0int
        })
    }
}

/// The distance between two cells.
pub open spec fn distance(a: Point, b: Point) -> int {
    (if a.x < b.x { b.x - a.x } else { a.x - b.x }) + (if a.y < b.y { b.y - a.y } else { a.y - b.y })
}

/// The middle of a net's box.
pub open spec fn net_center(net: GrNet) -> Point {
    let b = net.bounding_box;
    Point { x: tdiv(b.x.high.wrapping_add(b.x.low) as int, 2) as i32, y: tdiv(b.y.high.wrapping_add(b.y.low) as int, 2) as i32 }
}

/// The best of some cells: how accessible it is, how far, and its place.
pub struct Best {
    pub acc: int,
    pub dist: int,
    pub index: Option<int>,
}

/// The best of the first `n` cells: strictly more accessible, or as accessible and strictly nearer, wins.
pub open spec fn best_cell(g: GridGraph, open: Flags, cells: Seq<GrPoint>, center: Point, n: int) -> Best
    decreases n,
{
    if n <= 0 {
        Best { acc: 0, dist: i32::MAX as int, index: None }
    } else {
        let b = best_cell(g, open, cells, center, n - 1);
        let (a, d) = (accessibility(g, open, cells[n - 1]), distance(center, cells[n - 1].p));
        if a > b.acc || (a == b.acc && d < b.dist) { Best { acc: a, dist: d, index: Some(n - 1) } } else { b }
    }
}

/// The layers of the first `n` cells at a point.
pub open spec fn layers_at(cells: Seq<GrPoint>, p: Point, n: int) -> Interval
    decreases n,
{
    if n <= 0 {
        Interval { low: i32::MAX, high: i32::MIN }
    } else {
        let i = layers_at(cells, p, n - 1);
        if cells[n - 1].p == p { Interval { low: low_of(i.low, cells[n - 1].layer), high: high_of(i.high, cells[n - 1].layer) } } else { i }
    }
}

/// What choosing the cells of some pins leaves.
#[verifier::ext_equal]
pub struct Chosen {
    pub map: Seq<AccessPoint>,
    pub aps: Seq<Option<(Point, Interval)>>,
    pub choices: Seq<ApChoice>,
    pub log: Seq<Seq<char>>,
}

/// The text of the warning about a pin that is hard to access.
pub open spec fn hard_to_access(pin: int, name: Seq<char>) -> Seq<char> {
    "[WARNING GRT-0274] Pin "@ + dec(pin) + " of net "@ + name + " is hard to access."@
}

/// The state after a pin's cell is chosen: the point joins the map with all the layers of the pin there.
pub open spec fn choose_pin(g: GridGraph, open: Flags, net: GrNet, s: Chosen, pin: int) -> Chosen {
    let cells = net.pin_access_points@[pin]@;
    let b = best_cell(g, open, cells, net_center(net), cells.len() as int);
    let log = if b.acc == 0 { s.log.push(hard_to_access(pin, net.name@)) } else { s.log };
    match b.index {
        Some(k) => {
            let p = cells[k].p;
            let layers = layers_at(cells, p, cells.len() as int);
            Chosen {
                map: with_layers(s.map, p, layers, 0),
                aps: s.aps.update(pin, Some((p, layers))),
                choices: s.choices.push(
                    ApChoice { pin: pin as usize, index: k as usize, accessibility: b.acc as i32, distance: b.dist as i64, center: net_center(net) },
                ),
                log,
            }
        },
        None => Chosen { log, ..s },
    }
}

/// Whether a pin has no cell to choose.
pub open spec fn has_no_cell(g: GridGraph, open: Flags, net: GrNet, pin: int) -> bool {
    let cells = net.pin_access_points@[pin]@;
    best_cell(g, open, cells, net_center(net), cells.len() as int).index is None
}

/// The state after the first `n` pins.
pub open spec fn choose_pins(g: GridGraph, open: Flags, net: GrNet, s: Chosen, n: int) -> Chosen
    decreases n,
{
    if n <= 0 { s } else { choose_pin(g, open, net, choose_pins(g, open, net, s, n - 1), n - 1) }
}

/// Whether every cell of a net lies in the grid.
pub open spec fn cells_in_grid(g: GridGraph, net: GrNet) -> bool {
    forall|k: int, i: int|
        0 <= k < net.pin_access_points@.len() && 0 <= i < net.pin_access_points@[k]@.len() ==> {
            let c = #[trigger] net.pin_access_points@[k]@[i];
            g.has_cell(c.p) && 0 <= c.layer < g.num_layers
        }
}

/// A net that cannot be laid out by patterns.
#[derive(Debug)]
pub enum PatternError {
    /// A pin without a cell.
    NoAccessPoint { net: String, pin: usize },
    /// No layer has a path of finite cost.
    NoFinitePath { net: String },
    /// Two Steiner points of one link each at one place point at each other.
    DegenerateSteinerTree { net: String },
}

/// What is said of it.
pub open spec fn pattern_error_text(e: PatternError) -> Seq<char> {
    match e {
        PatternError::NoAccessPoint { net, pin } => "NoAccessPoint { net: \""@ + net@ + "\", pin: "@ + dec(pin as int) + " }"@,
        PatternError::NoFinitePath { net } => "NoFinitePath { net: \""@ + net@ + "\" }"@,
        PatternError::DegenerateSteinerTree { net } => "DegenerateSteinerTree { net: \""@ + net@ + "\" }"@,
    }
}

impl PatternError {
    /// What is said of it.
    pub fn message(&self) -> (s: String)
        ensures
            s@ == pattern_error_text(*self),
    {
        match self {
            PatternError::NoAccessPoint { net, pin } => {
                let mut s = String::from_str("NoAccessPoint { net: \"");
                s.append(net.as_str());
                s.append("\", pin: ");
                push_nat(&mut s, *pin as u64);
                s.append(" }");
                s
            },
            PatternError::NoFinitePath { net } => {
                let mut s = String::from_str("NoFinitePath { net: \"");
                s.append(net.as_str());
                s.append("\" }");
                s
            },
            PatternError::DegenerateSteinerTree { net } => {
                let mut s = String::from_str("DegenerateSteinerTree { net: \"");
                s.append(net.as_str());
                s.append("\" }");
                s
            },
        }
    }
}

fn gap(a: i32, b: i32) -> (r: i64)
    ensures
        r == (if a < b { b - a } else { a - b }),
{
    if a < b { b as i64 - a as i64 } else { a as i64 - b as i64 }
}

fn accessibility_of(g: &GridGraph, open: &Flags, c: GrPoint) -> (r: i32)
    requires
        g.wf(),
        flags_cover(*open, g.num_layers as int, g.x_size as int, g.y_size as int),
        g.has_cell(c.p),
        0 <= c.layer < g.num_layers,
    ensures
        r == accessibility(*g, *open, c),
        0 <= r <= 2,
{
    let layer: usize = c.layer as usize;
    if layer < g.min_routing_layer {
        return 1;
    }
    let d: usize = g.layer_directions[layer];
    assert(g.layer_directions@[layer as int] <= 1);
    assert(open@[layer as int]@.len() == g.x_size);
    assert(open@[layer as int]@[c.p.x as int]@.len() == g.y_size);
    let mut r: i32 = 0;
    if open[layer][c.p.x as usize][c.p.y as usize] {
        r = 1;
    }
    let at: i32 = c.p.get(d);
    if at > 0 {
        let mut q = c.p;
        q.set(d, at - 1);
        assert(q == moved(c.p, d as int, at - 1));
        assert(open@[layer as int]@[q.x as int]@.len() == g.y_size);
        if open[layer][q.x as usize][q.y as usize] {
            r += 1;
        }
    }
    r
}

fn add_layers(map: &mut AccessPointMap, p: Point, layers: Interval)
    ensures
        final(map)@ == with_layers(old(map)@, p, layers, 0),
{
    let ghost m0 = map@;
    let mut k: usize = 0;
    while k < map.len()
        invariant
            map@ == m0,
            m0 == old(map)@,
            k <= m0.len(),
            with_layers(m0, p, layers, k as int) == with_layers(m0, p, layers, 0),
        decreases m0.len() - k,
    {
        let e = map[k];
        if e.p == p {
            map[k] = AccessPoint { p, layers: e.layers.union_with(&layers) };
            return;
        }
        if p.x < e.p.x || (p.x == e.p.x && p.y < e.p.y) {
            map.insert(k, AccessPoint { p, layers });
            return;
        }
        k += 1;
    }
    map.push(AccessPoint { p, layers });
}

/// Chooses the cell of a pin; says whether there was one.
fn select_shape_access_point(net: &mut GrNet, pin: usize, grid: &GridGraph, open: &Flags, map: &mut AccessPointMap, log: &mut Vec<String>) -> (found: bool)
    requires
        grid.wf(),
        flags_cover(*open, grid.num_layers as int, grid.x_size as int, grid.y_size as int),
        cells_in_grid(*grid, *old(net)),
        pin < old(net).pin_access_points@.len(),
        old(net).preferred_aps@.len() == old(net).pin_access_points@.len(),
    ensures
        found == !has_no_cell(*grid, *open, *old(net), pin as int),
        ({
            let s = Chosen { map: old(map)@, aps: old(net).preferred_aps@, choices: old(net).shape_ap_choices@, log: texts(old(log)@) };
            let t = choose_pin(*grid, *open, *old(net), s, pin as int);
            &&& final(map)@ == t.map
            &&& final(net).preferred_aps@ == t.aps
            &&& final(net).shape_ap_choices@ == t.choices
            &&& texts(final(log)@) == t.log
        }),
        *final(net) == (GrNet { preferred_aps: final(net).preferred_aps, shape_ap_choices: final(net).shape_ap_choices, ..*old(net) }),
{
    let center = Point { x: net.bounding_box.cx(), y: net.bounding_box.cy() };
    let ghost net0 = *net;
    let ghost cells = net.pin_access_points@[pin as int]@;
    assert(center == net_center(net0));
    let mut best_acc: i32 = 0;
    let mut best_dist: i64 = i32::MAX as i64;
    let mut best_index: Option<usize> = None;
    let mut i: usize = 0;
    while i < net.pin_access_points[pin].len()
        invariant
            *net == net0,
            cells == net0.pin_access_points@[pin as int]@,
            grid.wf(),
            flags_cover(*open, grid.num_layers as int, grid.x_size as int, grid.y_size as int),
            cells_in_grid(*grid, net0),
            pin < net0.pin_access_points@.len(),
            i <= cells.len(),
            best_acc == best_cell(*grid, *open, cells, center, i as int).acc,
            best_dist == best_cell(*grid, *open, cells, center, i as int).dist,
            match best_index {
                Some(k) => best_cell(*grid, *open, cells, center, i as int).index == Some(k as int) && k < i,
                None => best_cell(*grid, *open, cells, center, i as int).index is None,
            },
        decreases cells.len() - i,
    {
        let c = net.pin_access_points[pin][i];
        assert(grid.has_cell(net0.pin_access_points@[pin as int]@[i as int].p));
        let a: i32 = accessibility_of(grid, open, c);
        let d: i64 = gap(center.x, c.p.x) + gap(center.y, c.p.y);
        if a > best_acc || (a == best_acc && d < best_dist) {
            best_acc = a;
            best_dist = d;
            best_index = Some(i);
        }
        i += 1;
    }
    if best_acc == 0 {
        let mut s = String::from_str("[WARNING GRT-0274] Pin ");
        push_nat(&mut s, pin as u64);
        s.append(" of net ");
        s.append(net.name.as_str());
        s.append(" is hard to access.");
        assert(s@ =~= hard_to_access(pin as int, net0.name@));
        push_text(log, s);
    }
    let best: usize = match best_index {
        Some(k) => k,
        None => {
            return false;
        },
    };
    let selected = net.pin_access_points[pin][best].p;
    let mut fixed = Interval { low: i32::MAX, high: i32::MIN };
    let mut i: usize = 0;
    while i < net.pin_access_points[pin].len()
        invariant
            *net == net0,
            cells == net0.pin_access_points@[pin as int]@,
            pin < net0.pin_access_points@.len(),
            i <= cells.len(),
            fixed == layers_at(cells, selected, i as int),
        decreases cells.len() - i,
    {
        let c = net.pin_access_points[pin][i];
        if c.p == selected {
            fixed.update(c.layer);
        }
        i += 1;
    }
    add_layers(map, selected, fixed);
    net.preferred_aps.set(pin, Some((selected, fixed)));
    net.shape_ap_choices.push(ApChoice { pin, index: best, accessibility: best_acc, distance: best_dist, center });
    true
}

/// Chooses the cell of every pin of a net, and gives the cells with the layers that they need. An edge of
/// `open` is one that holds a whole track.
///
/// Refused at the first pin without a cell; those before stay chosen.
pub fn select_access_points(net: &mut GrNet, grid: &GridGraph, open: &Flags, log: &mut Vec<String>) -> (r: Result<AccessPointMap, PatternError>)
    requires
        grid.wf(),
        flags_cover(*open, grid.num_layers as int, grid.x_size as int, grid.y_size as int),
        cells_in_grid(*grid, *old(net)),
        old(net).preferred_aps@.len() == old(net).pin_access_points@.len(),
    ensures
        ({
            let n = old(net).pin_access_points@.len() as int;
            let s = Chosen { map: Seq::empty(), aps: old(net).preferred_aps@, choices: Seq::empty(), log: texts(old(log)@) };
            &&& match r {
                Ok(map) => {
                    &&& forall|k: int| 0 <= k < n ==> !#[trigger] has_no_cell(*grid, *open, *old(net), k)
                    &&& map@ == choose_pins(*grid, *open, *old(net), s, n).map
                    &&& final(net).preferred_aps@ == choose_pins(*grid, *open, *old(net), s, n).aps
                    &&& final(net).shape_ap_choices@ == choose_pins(*grid, *open, *old(net), s, n).choices
                    &&& texts(final(log)@) == choose_pins(*grid, *open, *old(net), s, n).log
                },
                Err(PatternError::NoAccessPoint { net: name, pin }) => {
                    &&& name@ == old(net).name@
                    &&& pin < n
                    &&& has_no_cell(*grid, *open, *old(net), pin as int)
                    &&& forall|k: int| 0 <= k < pin ==> !#[trigger] has_no_cell(*grid, *open, *old(net), k)
                    &&& final(net).preferred_aps@ == choose_pins(*grid, *open, *old(net), s, pin + 1).aps
                    &&& final(net).shape_ap_choices@ == choose_pins(*grid, *open, *old(net), s, pin + 1).choices
                    &&& texts(final(log)@) == choose_pins(*grid, *open, *old(net), s, pin + 1).log
                },
                _ => false,
            }
        }),
        *final(net) == (GrNet { preferred_aps: final(net).preferred_aps, shape_ap_choices: final(net).shape_ap_choices, ..*old(net) }),
{
    let mut map: AccessPointMap = Vec::new();
    let ghost net0 = *net;
    let ghost s = Chosen { map: Seq::empty(), aps: net.preferred_aps@, choices: Seq::empty(), log: texts(log@) };
    net.shape_ap_choices = Vec::new();
    let total: usize = net.num_pins();
    let mut pin: usize = 0;
    while pin < total
        invariant
            net0 == *old(net),
            s == (Chosen { map: Seq::empty(), aps: old(net).preferred_aps@, choices: Seq::empty(), log: texts(old(log)@) }),
            grid.wf(),
            flags_cover(*open, grid.num_layers as int, grid.x_size as int, grid.y_size as int),
            cells_in_grid(*grid, net0),
            total == net0.pin_access_points@.len(),
            net0.preferred_aps@.len() == total,
            pin <= total,
            *net == (GrNet { preferred_aps: net.preferred_aps, shape_ap_choices: net.shape_ap_choices, ..net0 }),
            net.preferred_aps@.len() == total,
            forall|k: int| 0 <= k < pin ==> !#[trigger] has_no_cell(*grid, *open, net0, k),
            map@ == choose_pins(*grid, *open, net0, s, pin as int).map,
            net.preferred_aps@ == choose_pins(*grid, *open, net0, s, pin as int).aps,
            net.shape_ap_choices@ == choose_pins(*grid, *open, net0, s, pin as int).choices,
            texts(log@) == choose_pins(*grid, *open, net0, s, pin as int).log,
        decreases total - pin,
    {
        let ghost before = *net;
        let found = select_shape_access_point(net, pin, grid, open, &mut map, log);
        proof {
            let t = Chosen { map: choose_pins(*grid, *open, net0, s, pin as int).map, aps: before.preferred_aps@, choices: before.shape_ap_choices@, log: choose_pins(*grid, *open, net0, s, pin as int).log };
            assert(t =~= choose_pins(*grid, *open, net0, s, pin as int));
            assert(choose_pin(*grid, *open, before, t, pin as int) =~= choose_pin(*grid, *open, net0, t, pin as int));
            assert(has_no_cell(*grid, *open, before, pin as int) == has_no_cell(*grid, *open, net0, pin as int));
        }
        if !found {
            let name = String::from_str(net.name.as_str());
            return Err(PatternError::NoAccessPoint { net: name, pin });
        }
        pin += 1;
    }
    Ok(map)
}

proof fn lemma_with_layers(m: Seq<AccessPoint>, p: Point, layers: Interval, k: int)
    requires
        is_map(m),
        0 <= k <= m.len(),
        forall|i: int| 0 <= i < k ==> point_before((#[trigger] m[i]).p, p),
    ensures
        is_map(with_layers(m, p, layers, k)),
    decreases m.len() - k,
{
    let r = with_layers(m, p, layers, k);
    if k < m.len() {
        if m[k].p == p {
            assert forall|i: int, j: int| 0 <= i < j < r.len() implies point_before((#[trigger] r[i]).p, (#[trigger] r[j]).p) by {
                assert(r[i].p == m[i].p && r[j].p == m[j].p);
            }
        } else if point_before(p, m[k].p) {
            assert forall|i: int, j: int| 0 <= i < j < r.len() implies point_before((#[trigger] r[i]).p, (#[trigger] r[j]).p) by {
                if i < k {
                    assert(r[i] == m[i]);
                } else if i > k {
                    assert(r[i] == m[i - 1]);
                }
                if j < k {
                    assert(r[j] == m[j]);
                } else if j > k {
                    assert(r[j] == m[j - 1]);
                }
                if i == k && j > k {
                    assert(j - 1 == k || point_before(m[k].p, m[j - 1].p));
                }
            }
        } else {
            assert(point_before(m[k].p, p));
            lemma_with_layers(m, p, layers, k + 1);
        }
    }
}

/// The cells that a net is reached at come by x and then y, each once, whatever the pins' order.
pub proof fn chosen_cells_stay_in_order(g: GridGraph, open: Flags, net: GrNet, s: Chosen, n: int)
    requires
        is_map(s.map),
    ensures
        is_map(choose_pins(g, open, net, s, n).map),
    decreases n,
{
    if n > 0 {
        chosen_cells_stay_in_order(g, open, net, s, n - 1);
        let t = choose_pins(g, open, net, s, n - 1);
        let cells = net.pin_access_points@[n - 1]@;
        let b = best_cell(g, open, cells, net_center(net), cells.len() as int);
        if b.index is Some {
            let p = cells[b.index->0].p;
            lemma_with_layers(t.map, p, layers_at(cells, p, cells.len() as int), 0);
        }
    }
}

/// The cell chosen for a pin is as accessible as any of its cells and, of those as accessible, none is
/// nearer and none before it is as near. None is chosen only where no cell is accessible at all.
pub proof fn no_cell_of_a_pin_is_better(g: GridGraph, open: Flags, cells: Seq<GrPoint>, center: Point, n: int)
    requires
        0 <= n <= cells.len(),
        forall|j: int| 0 <= j < n ==> distance(center, (#[trigger] cells[j]).p) < i32::MAX,
    ensures
        ({
            let b = best_cell(g, open, cells, center, n);
            match b.index {
                Some(k) => {
                    &&& 0 <= k < n
                    &&& b.acc == accessibility(g, open, cells[k])
                    &&& b.dist == distance(center, cells[k].p)
                    &&& forall|j: int| 0 <= j < n ==> accessibility(g, open, #[trigger] cells[j]) <= b.acc
                    &&& forall|j: int| 0 <= j < n && accessibility(g, open, #[trigger] cells[j]) == b.acc ==> b.dist <= distance(center, cells[j].p)
                    &&& forall|j: int| 0 <= j < k && accessibility(g, open, #[trigger] cells[j]) == b.acc ==> b.dist < distance(center, cells[j].p)
                },
                None => n == 0,
            }
        }),
        best_cell(g, open, cells, center, n).acc >= 0,
        best_cell(g, open, cells, center, n).index is None ==> best_cell(g, open, cells, center, n).acc == 0 && best_cell(
            g,
            open,
            cells,
            center,
            n,
        ).dist == i32::MAX,
    decreases n,
{
    if n > 0 {
        no_cell_of_a_pin_is_better(g, open, cells, center, n - 1);
        assert(distance(center, cells[n - 1].p) < i32::MAX);
    }
}

/// The layers of a point reach over all of the pin's cells there, and no further.
pub proof fn the_layers_of_a_point_are_those_of_its_cells(cells: Seq<GrPoint>, p: Point, n: int)
    requires
        0 <= n <= cells.len(),
    ensures
        forall|i: int| 0 <= i < n && (#[trigger] cells[i]).p == p ==> layers_at(cells, p, n).low <= cells[i].layer <= layers_at(cells, p, n).high,
        (exists|i: int| 0 <= i < n && (#[trigger] cells[i]).p == p) ==> {
            &&& exists|i: int| 0 <= i < n && (#[trigger] cells[i]).p == p && cells[i].layer == layers_at(cells, p, n).low
            &&& exists|i: int| 0 <= i < n && (#[trigger] cells[i]).p == p && cells[i].layer == layers_at(cells, p, n).high
        },
        (forall|i: int| 0 <= i < n ==> (#[trigger] cells[i]).p != p) ==> layers_at(cells, p, n) == (Interval { low: i32::MAX, high: i32::MIN }),
    decreases n,
{
    if n > 0 {
        the_layers_of_a_point_are_those_of_its_cells(cells, p, n - 1);
        let (a, b) = (layers_at(cells, p, n - 1), layers_at(cells, p, n));
        if exists|i: int| 0 <= i < n - 1 && (#[trigger] cells[i]).p == p {
            let i = choose|i: int| 0 <= i < n - 1 && (#[trigger] cells[i]).p == p && cells[i].layer == a.low;
            let j = choose|i: int| 0 <= i < n - 1 && (#[trigger] cells[i]).p == p && cells[i].layer == a.high;
            assert(cells[i].p == p && cells[j].p == p);
            assert(cells[n - 1].p == p ==> b.low == a.low || b.low == cells[n - 1].layer);
            assert(cells[n - 1].p == p ==> b.high == a.high || b.high == cells[n - 1].layer);
        } else {
            if cells[n - 1].p == p {
                assert(b.low == cells[n - 1].layer);
                assert(b.high == cells[n - 1].layer);
            }
        }
    }
}

/// Adding layers at a point leaves every other point of the map as it is; the point itself is there
/// after, with the layers added to those that it had.
pub proof fn adding_layers_touches_one_point(m: Seq<AccessPoint>, p: Point, layers: Interval, k: int, a: AccessPoint)
    requires
        0 <= k <= m.len(),
        is_map(m),
        forall|j: int| 0 <= j < k ==> point_before((#[trigger] m[j]).p, p),
    ensures
        a.p != p ==> with_layers(m, p, layers, k).contains(a) == m.contains(a),
        (forall|i: int| 0 <= i < m.len() ==> (#[trigger] m[i]).p != p) ==> with_layers(m, p, layers, k).contains(AccessPoint { p, layers }),
        forall|i: int|
            0 <= i < m.len() && (#[trigger] m[i]).p == p ==> with_layers(m, p, layers, k).contains(
                AccessPoint { p, layers: m[i].layers.hull(layers) },
            ),
    decreases m.len() - k,
{
    let r = with_layers(m, p, layers, k);
    let e = AccessPoint { p, layers };
    if k >= m.len() {
        assert(r[m.len() as int] == e);
        if m.contains(a) {
            let i = choose|i: int| 0 <= i < m.len() && m[i] == a;
            assert(r[i] == a);
        }
        if r.contains(a) && a.p != p {
            let i = choose|i: int| 0 <= i < r.len() && r[i] == a;
            assert(m[i] == a);
        }
    } else if m[k].p == p {
        let f = AccessPoint { p, layers: m[k].layers.hull(layers) };
        assert(r[k] == f);
        assert forall|i: int| 0 <= i < m.len() && (#[trigger] m[i]).p == p implies r.contains(AccessPoint { p, layers: m[i].layers.hull(layers) }) by {
            if i < k {
                assert(point_before(m[i].p, m[k].p));
            } else if i > k {
                assert(point_before(m[k].p, m[i].p));
            }
        }
        if a.p != p {
            if m.contains(a) {
                let i = choose|i: int| 0 <= i < m.len() && m[i] == a;
                assert(r[i] == a);
            }
            if r.contains(a) {
                let i = choose|i: int| 0 <= i < r.len() && r[i] == a;
                assert(m[i] == a);
            }
        }
    } else if point_before(p, m[k].p) {
        assert(r[k] == e);
        if m.contains(a) {
            let i = choose|i: int| 0 <= i < m.len() && m[i] == a;
            assert(r[if i < k { i } else { i + 1 }] == a);
        }
        if r.contains(a) && a.p != p {
            let i = choose|i: int| 0 <= i < r.len() && r[i] == a;
            assert(m[if i < k { i } else { i - 1 }] == a);
        }
        assert forall|i: int| 0 <= i < m.len() && (#[trigger] m[i]).p == p implies false by {
            if i >= k {
                if i > k {
                    assert(point_before(m[k].p, m[i].p));
                }
            } else {
                assert(point_before(m[i].p, p));
            }
        }
    } else {
        adding_layers_touches_one_point(m, p, layers, k + 1, a);
    }
}

/// Every pin that has a cell to choose gets the best of its cells, with all of the pin's layers there, and
/// no other pin is given one.
pub proof fn every_pin_gets_its_best_cell(g: GridGraph, open: Flags, net: GrNet, s: Chosen, n: int, pin: int)
    requires
        0 <= n <= s.aps.len(),
        0 <= pin < s.aps.len(),
    ensures
        ({
            let cells = net.pin_access_points@[pin]@;
            let r = choose_pins(g, open, net, s, n);
            let best = best_cell(g, open, cells, net_center(net), cells.len() as int).index;
            &&& r.aps.len() == s.aps.len()
            &&& pin >= n || best is None ==> r.aps[pin] == s.aps[pin]
            &&& pin < n && best is Some ==> r.aps[pin] == Some((cells[best->Some_0].p, layers_at(cells, cells[best->Some_0].p, cells.len() as int)))
        }),
    decreases n,
{
    if n > 0 {
        every_pin_gets_its_best_cell(g, open, net, s, n - 1, pin);
    }
}

} // verus!
