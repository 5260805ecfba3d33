//! What follows the router: guides for local nets, stacks up to top-level pins, and the merging of
//! collinear segments.

use crate::lists::{count_of, is_least_of, is_most_of, lemma_count_next, lemma_count_none, lemma_sum_next, lemma_sum_none, sum_of};
use vstd::prelude::*;
use vstd::string::StringExecFns;

use crate::callbacks::same_text;

use crate::GSegment;

verus! {

/// A pin: its on-grid position and its connection layer.
pub type GridPin = (i32, i32, i32);

/// A net the router left without segments whose pins are not all on one cell.
#[derive(Debug)]
pub struct NoRouteGuides {
    pub net: String,
}

/// A stack of vias at `(x, y)` from layer `from` through layer `to`, each to the layer above.
pub open spec fn via_stack(x: i32, y: i32, from: int, to: int) -> Seq<GSegment> {
    Seq::new(
        (if from <= to { to - from + 1 } else { 0 }) as nat,
        |i: int|
            GSegment {
                init_x: x,
                init_y: y,
                init_layer: (from + i) as i32,
                final_x: x,
                final_y: y,
                final_layer: (from + i + 1) as i32,
                is_jumper: false,
            },
    )
}

/// Whether each pin is on the cell of the one before.
pub open spec fn on_one_cell(pins: Seq<GridPin>) -> bool {
    forall|p: int| 0 < p < pins.len() ==> (#[trigger] pins[p]).0 == pins[p - 1].0 && pins[p].1 == pins[p - 1].1
}

/// The highest layer of the first `n` pins, -1 without any.
pub open spec fn highest(pins: Seq<GridPin>, n: int) -> int
    decreases n,
{
    if n <= 0 {
        -1
    } else {
        let h = highest(pins, n - 1);
        if pins[n - 1].2 > h { pins[n - 1].2 as int } else { h }
    }
}

/// The lowest layer of the first `n` pins, the largest `i32` without any.
pub open spec fn lowest(pins: Seq<GridPin>, n: int) -> int
    decreases n,
{
    if n <= 0 {
        i32::MAX as int
    } else {
        let l = lowest(pins, n - 1);
        if pins[n - 1].2 < l { pins[n - 1].2 as int } else { l }
    }
}

/// The layers of a local net's stack: from the lower of its lowest pin and the min routing layer
/// through its highest pin, or one below where that is at or above the max routing layer.
pub open spec fn local_layers(pins: Seq<GridPin>, min: int, max: int) -> (int, int) {
    let (l, h) = (lowest(pins, pins.len() as int), highest(pins, pins.len() as int));
    (if l < min { l } else { min }, if h >= max { h - 1 } else { h })
}

/// The guides of a local net.
pub open spec fn local_guides(pins: Seq<GridPin>, min: int, max: int) -> Seq<GSegment> {
    let (from, to) = local_layers(pins, min, max);
    via_stack(pins[0].0, pins[0].1, from, to)
}

fn push_stack(out: &mut Vec<GSegment>, x: i32, y: i32, from: i32, to: i32)
    requires
        from <= to ==> to < i32::MAX,
    ensures
        final(out)@ == old(out)@ + via_stack(x, y, from as int, to as int),
{
    let mut l: i32 = from;
    assert(out@ =~= old(out)@ + via_stack(x, y, from as int, from - 1));
    while l <= to
        invariant
            from <= l,
            l <= to + 1 || l == from,
            from <= to ==> to < i32::MAX,
            out@ == old(out)@ + via_stack(x, y, from as int, l - 1),
        decreases to + 1 - l,
    {
        out.push(GSegment::new(x, y, l, x, y, l + 1));
        l += 1;
        assert(out@ =~= old(out)@ + via_stack(x, y, from as int, l - 1));
    }
    assert(out@ =~= old(out)@ + via_stack(x, y, from as int, to as int));
}

/// A net whose pins all sit on one cell gets a via stack there. The stack's vias each rise one
/// layer, so it normally ends one above the highest pin.
pub fn add_guides_for_local_net(net: &str, pins: &[GridPin], min_routing_layer: i32, max_routing_layer: i32) -> (r: Result<Vec<GSegment>, NoRouteGuides>)
    requires
        pins@.len() > 0,
        on_one_cell(pins@) ==> local_layers(pins@, min_routing_layer as int, max_routing_layer as int).1 < i32::MAX,
    ensures
        r is Ok <==> on_one_cell(pins@),
        r matches Ok(v) ==> v@ == local_guides(pins@, min_routing_layer as int, max_routing_layer as int),
        r matches Err(e) ==> e.net@ == net@,
{
    let mut last_layer: i32 = -1;
    let mut min_pin_layer: i32 = i32::MAX;
    let mut p: usize = 0;
    while p < pins.len()
        invariant
            p <= pins@.len(),
            forall|q: int| 0 < q < p ==> (#[trigger] pins@[q]).0 == pins@[q - 1].0 && pins@[q].1 == pins@[q - 1].1,
            last_layer == highest(pins@, p as int),
            min_pin_layer == lowest(pins@, p as int),
            last_layer >= -1,
        decreases pins@.len() - p,
    {
        let pin = pins[p];
        if p > 0 && (pin.0 != pins[p - 1].0 || pin.1 != pins[p - 1].1) {
            assert(!on_one_cell(pins@)) by {
                assert(pins@[p as int].0 != pins@[p - 1].0 || pins@[p as int].1 != pins@[p - 1].1);
            }
            return Err(NoRouteGuides { net: String::from_str(net) });
        }
        min_pin_layer = min_pin_layer.min(pin.2);
        last_layer = last_layer.max(pin.2);
        p += 1;
    }
    if last_layer >= max_routing_layer {
        last_layer -= 1;
    }
    let mut out: Vec<GSegment> = Vec::new();
    push_stack(&mut out, pins[0].0, pins[0].1, min_pin_layer.min(min_routing_layer), last_layer);
    assert(out@ =~= local_guides(pins@, min_routing_layer as int, max_routing_layer as int));
    Ok(out)
}

/// The stacks up to the first `n` pins that lie above the block's max routing layer.
pub open spec fn top_stacks(pins: Seq<GridPin>, block_max: int, n: int) -> Seq<GSegment>
    decreases n,
{
    if n <= 0 {
        Seq::empty()
    } else {
        let p = pins[n - 1];
        top_stacks(pins, block_max, n - 1) + (if p.2 > block_max {
            via_stack(p.0, p.1, block_max, p.2 - 1)
        } else {
            Seq::empty()
        })
    }
}

/// A via stack from the block's max routing layer up to each pin connected above it.
pub fn connect_top_level_pins(pins: &[GridPin], block_max_routing_layer: i32) -> (out: Vec<GSegment>)
    ensures
        out@ == top_stacks(pins@, block_max_routing_layer as int, pins@.len() as int),
{
    let mut out: Vec<GSegment> = Vec::new();
    let mut i: usize = 0;
    while i < pins.len()
        invariant
            i <= pins@.len(),
            out@ == top_stacks(pins@, block_max_routing_layer as int, i as int),
        decreases pins@.len() - i,
    {
        let (x, y, l) = pins[i];
        if l > block_max_routing_layer {
            push_stack(&mut out, x, y, block_max_routing_layer, l - 1);
        }
        i += 1;
        assert(out@ =~= top_stacks(pins@, block_max_routing_layer as int, i as int));
    }
    out
}

/// How far a pin lies above a layer; 0 where it does not.
pub open spec fn rise_above(p: GridPin, layer: int) -> int {
    if p.2 > layer { p.2 - layer } else { 0 }
}

/// How far the first `n` pins lie above a layer together.
pub open spec fn rises_above(pins: Seq<GridPin>, layer: int, n: int) -> int
    decreases n,
{
    if n <= 0 { 0 } else { rises_above(pins, layer, n - 1) + rise_above(pins[n - 1], layer) }
}

/// Whether a segment is the via at a pin from a layer to the next.
pub open spec fn is_via_at(s: GSegment, p: GridPin, layer: int) -> bool {
    &&& s.init_x == p.0 && s.init_y == p.1 && s.final_x == p.0 && s.final_y == p.1
    &&& s.init_layer == layer && s.final_layer == layer + 1
    &&& !s.is_jumper
}

/// Whether a segment is a via on the way from a layer up to one of the pins.
pub open spec fn climbs_to_a_pin(s: GSegment, pins: Seq<GridPin>, layer: int) -> bool {
    exists|i: int, k: int| 0 <= i < pins.len() && layer <= k < pins[i].2 && #[trigger] is_via_at(s, pins[i], k)
}

/// Whether the via from a layer at a pin stands where the stacks of the pins before leave off.
pub open spec fn stands_in_its_stack(out: Seq<GSegment>, pins: Seq<GridPin>, block_max: int, i: int, layer: int) -> bool {
    let at = rises_above(pins, block_max, i) + (layer - block_max);
    0 <= at < out.len() && is_via_at(out[at], pins[i], layer)
}

proof fn lemma_stack_places(pins: Seq<GridPin>, block_max: int, n: int)
    requires
        0 <= n <= pins.len(),
        i32::MIN <= block_max <= i32::MAX,
    ensures
        top_stacks(pins, block_max, n).len() == rises_above(pins, block_max, n),
        forall|i: int, k: int|
            0 <= i < n && block_max <= k < pins[i].2 ==> #[trigger] stands_in_its_stack(top_stacks(pins, block_max, n), pins, block_max, i, k),
        forall|j: int| 0 <= j < top_stacks(pins, block_max, n).len() ==> climbs_to_a_pin(#[trigger] top_stacks(pins, block_max, n)[j], pins, block_max),
    decreases n,
{
    if n > 0 {
        lemma_stack_places(pins, block_max, n - 1);
        let (now, before) = (top_stacks(pins, block_max, n), top_stacks(pins, block_max, n - 1));
        assert(now.len() == before.len() + rise_above(pins[n - 1], block_max));
        assert forall|i: int, k: int| 0 <= i < n && block_max <= k < pins[i].2 implies #[trigger] stands_in_its_stack(now, pins, block_max, i, k) by {
            let at = rises_above(pins, block_max, i) + (k - block_max);
            if i < n - 1 {
                assert(stands_in_its_stack(before, pins, block_max, i, k));
                assert(now[at] == before[at]);
            } else {
                assert(now[at] == via_stack(pins[i].0, pins[i].1, block_max, pins[i].2 - 1)[k - block_max]);
            }
        }
        assert forall|j: int| 0 <= j < now.len() implies climbs_to_a_pin(#[trigger] now[j], pins, block_max) by {
            if j < before.len() {
                assert(now[j] == before[j]);
            } else {
                let k = j - before.len();
                assert(now[j] == via_stack(pins[n - 1].0, pins[n - 1].1, block_max, pins[n - 1].2 - 1)[k]);
                assert(is_via_at(now[j], pins[n - 1], block_max + k));
            }
        }
    }
}

/// Every pin above the block's highest routed layer is reached from that layer by a via at its own place from each
/// layer to the next, and there is no other via: the stacks stand one after another, in the order of the pins.
pub proof fn every_top_level_pin_gets_its_own_stack(pins: Seq<GridPin>, block_max: i32, out: Seq<GSegment>)
    requires
        out == top_stacks(pins, block_max as int, pins.len() as int),
    ensures
        out.len() == rises_above(pins, block_max as int, pins.len() as int),
        forall|i: int, k: int| 0 <= i < pins.len() && block_max <= k < pins[i].2 ==> #[trigger] stands_in_its_stack(out, pins, block_max as int, i, k),
        forall|s: GSegment| #[trigger] out.contains(s) <==> climbs_to_a_pin(s, pins, block_max as int),
{
    let b = block_max as int;
    lemma_stack_places(pins, b, pins.len() as int);
    assert forall|s: GSegment| #[trigger] out.contains(s) <==> climbs_to_a_pin(s, pins, b) by {
        if out.contains(s) {
            let j = choose|j: int| 0 <= j < out.len() && out[j] == s;
            assert(climbs_to_a_pin(out[j], pins, b));
        }
        if climbs_to_a_pin(s, pins, b) {
            let (i, k) = choose|i: int, k: int| 0 <= i < pins.len() && b <= k < pins[i].2 && #[trigger] is_via_at(s, pins[i], k);
            assert(stands_in_its_stack(out, pins, b, i, k));
            assert(out[rises_above(pins, b, i) + (k - b)] == s);
        }
    }
}

/// A net as [`add_remaining_guides`] reads it.
#[derive(Debug)]
pub struct RemainingNet {
    pub name: String,
    /// Whether the router was given the net.
    pub made: bool,
    pub pins: Vec<GridPin>,
}

/// Routes by net name: each net once.
#[derive(Debug)]
pub struct Routes(pub Vec<(String, Vec<GSegment>)>);

/// Where a net's route stands.
pub open spec fn route_at(v: Seq<(String, Vec<GSegment>)>, name: Seq<char>, i: int) -> bool {
    0 <= i < v.len() && v[i].0@ == name
}

impl Routes {
    pub open spec fn wf(&self) -> bool {
        forall|i: int, j: int| 0 <= i < j < self.0@.len() ==> (#[trigger] self.0@[i]).0@ != (#[trigger] self.0@[j]).0@
    }

    /// Each net's route.
    pub open spec fn view(&self) -> Map<Seq<char>, Seq<GSegment>> {
        Map::new(
            |n: Seq<char>| exists|i: int| route_at(self.0@, n, i),
            |n: Seq<char>| self.0@[choose|i: int| route_at(self.0@, n, i)].1@,
        )
    }

    /// No routes.
    pub fn new() -> (r: Routes)
        ensures
            r.wf(),
            r@ == Map::<Seq<char>, Seq<GSegment>>::empty(),
    {
        let r = Routes(Vec::new());
        assert(r@ =~= Map::<Seq<char>, Seq<GSegment>>::empty());
        r
    }

    proof fn lemma_at(&self, i: int)
        requires
            self.wf(),
            0 <= i < self.0@.len(),
        ensures
            self@.dom().contains(self.0@[i].0@),
            self@[self.0@[i].0@] == self.0@[i].1@,
    {
        let n = self.0@[i].0@;
        assert(route_at(self.0@, n, i));
        let j = choose|j: int| route_at(self.0@, n, j);
        if j < i {
            assert(self.0@[j].0@ != self.0@[i].0@);
        } else if i < j {
            assert(self.0@[i].0@ != self.0@[j].0@);
        }
    }

    /// Where a net's route stands, an empty one being added for a net without.
    pub fn entry(&mut self, name: &str) -> (i: usize)
        requires
            old(self).wf(),
        ensures
            final(self).wf(),
            i < final(self).0@.len(),
            final(self).0@[i as int].0@ == name@,
            final(self)@ == old(self)@.insert(name@, route_of(old(self)@, name@)),
            final(self).0@[i as int].1@ == route_of(old(self)@, name@),
    {
        let mut i: usize = 0;
        while i < self.0.len()
            invariant
                i <= self.0@.len(),
                self.wf(),
                *self == *old(self),
                forall|j: int| 0 <= j < i ==> (#[trigger] self.0@[j]).0@ != name@,
            decreases self.0@.len() - i,
        {
            if same_text(self.0[i].0.as_str(), name) {
                proof {
                    self.lemma_at(i as int);
                    assert(self@ =~= self@.insert(name@, route_of(self@, name@)));
                }
                return i;
            }
            i += 1;
        }
        self.0.push((String::from_str(name), Vec::new()));
        proof {
            let (v, w) = (old(self).0@, self.0@);
            if old(self)@.dom().contains(name@) {
                let j = choose|j: int| route_at(v, name@, j);
                assert(v[j].0@ != name@);
            }
            let want = old(self)@.insert(name@, route_of(old(self)@, name@));
            assert forall|n: Seq<char>| #[trigger] self@.dom().contains(n) == want.dom().contains(n) by {
                if self@.dom().contains(n) {
                    let j = choose|j: int| route_at(w, n, j);
                    if j < v.len() {
                        assert(route_at(v, n, j));
                    }
                }
                if want.dom().contains(n) {
                    if n == name@ {
                        assert(route_at(w, n, v.len() as int));
                    } else {
                        let j = choose|j: int| route_at(v, n, j);
                        assert(route_at(w, n, j));
                    }
                }
            }
            assert forall|n: Seq<char>| self@.dom().contains(n) implies self@[n] == want[n] by {
                let j = choose|j: int| route_at(w, n, j);
                self.lemma_at(j);
                if j < v.len() {
                    old(self).lemma_at(j);
                } else {
                    assert(w[j].1@ =~= Seq::<GSegment>::empty());
                }
            }
            assert(self@ =~= want);
            assert(self.0@[i as int].1@ =~= route_of(old(self)@, name@));
        }
        i
    }

    /// What changing one route changes.
    proof fn lemma_changed_at(a: Routes, b: Routes, i: int)
        requires
            a.wf(),
            0 <= i < a.0@.len(),
            b.0@.len() == a.0@.len(),
            forall|j: int| 0 <= j < a.0@.len() ==> (#[trigger] b.0@[j]).0@ == a.0@[j].0@ && (j != i ==> b.0@[j] == a.0@[j]),
        ensures
            b.wf(),
            b@ == a@.insert(a.0@[i].0@, b.0@[i].1@),
    {
        let (v, w) = (a.0@, b.0@);
        let name = v[i].0@;
        assert forall|p: int, q: int| 0 <= p < q < w.len() implies (#[trigger] w[p]).0@ != (#[trigger] w[q]).0@ by {
            assert(v[p].0@ != v[q].0@);
        }
        let new = a@.insert(name, w[i].1@);
        assert forall|n: Seq<char>| #[trigger] b@.dom().contains(n) == new.dom().contains(n) by {
            if b@.dom().contains(n) {
                let j = choose|j: int| route_at(w, n, j);
                assert(route_at(v, n, j));
            }
            if new.dom().contains(n) {
                if n == name {
                    assert(route_at(w, n, i));
                } else {
                    let j = choose|j: int| route_at(v, n, j);
                    assert(route_at(w, n, j));
                }
            }
        }
        assert forall|n: Seq<char>| b@.dom().contains(n) implies b@[n] == new[n] by {
            let j = choose|j: int| route_at(w, n, j);
            b.lemma_at(j);
            a.lemma_at(j);
        }
        assert(b@ =~= new);
    }

    /// Appends segments to the route at a place.
    pub fn extend(&mut self, i: usize, more: Vec<GSegment>)
        requires
            old(self).wf(),
            i < old(self).0@.len(),
        ensures
            final(self).wf(),
            final(self)@ == old(self)@.insert(old(self).0@[i as int].0@, old(self).0@[i as int].1@ + more@),
    {
        let mut more = more;
        self.0[i].1.append(&mut more);
        proof {
            Routes::lemma_changed_at(*old(self), *self, i as int);
        }
    }

    /// Gives a net a route, in place of the one that it has.
    pub fn insert(&mut self, name: &str, route: Vec<GSegment>)
        requires
            old(self).wf(),
        ensures
            final(self).wf(),
            final(self)@ == old(self)@.insert(name@, route@),
    {
        let i: usize = self.entry(name);
        let ghost mid = *self;
        self.0[i].1 = route;
        proof {
            Routes::lemma_changed_at(mid, *self, i as int);
            assert(self@ =~= old(self)@.insert(name@, route@));
        }
    }

    /// Takes a net's route away, if it has one.
    pub fn remove(&mut self, name: &str)
        requires
            old(self).wf(),
        ensures
            final(self).wf(),
            final(self)@ == old(self)@.remove(name@),
    {
        match self.find(name) {
            Some(i) => {
                let _ = self.0.remove(i);
                proof {
                    let (v, w) = (old(self).0@, self.0@);
                    assert(w =~= v.remove(i as int));
                    assert forall|p: int, q: int| 0 <= p < q < w.len() implies (#[trigger] w[p]).0@ != (#[trigger] w[q]).0@ by {
                        let (a, b) = (if p < i { p } else { p + 1 }, if q < i { q } else { q + 1 });
                        assert(v[a].0@ != v[b].0@);
                    }
                    let want = old(self)@.remove(name@);
                    assert forall|n: Seq<char>| #[trigger] self@.dom().contains(n) == want.dom().contains(n) by {
                        if self@.dom().contains(n) {
                            let j = choose|j: int| route_at(w, n, j);
                            let a = if j < i { j } else { j + 1 };
                            assert(route_at(v, n, a));
                            if a < i {
                                assert(v[a].0@ != v[i as int].0@);
                            } else {
                                assert(v[i as int].0@ != v[a].0@);
                            }
                        }
                        if want.dom().contains(n) {
                            let j = choose|j: int| route_at(v, n, j);
                            assert(j != i);
                            assert(route_at(w, n, if j < i { j } else { j - 1 }));
                        }
                    }
                    assert forall|n: Seq<char>| self@.dom().contains(n) implies self@[n] == want[n] by {
                        let j = choose|j: int| route_at(w, n, j);
                        self.lemma_at(j);
                        old(self).lemma_at(if j < i { j } else { j + 1 });
                    }
                    assert(self@ =~= want);
                }
            },
            None => {
                assert(self@ =~= old(self)@.remove(name@));
            },
        }
    }

    /// Where a net's route stands, if it has one.
    pub fn find(&self, name: &str) -> (r: Option<usize>)
        requires
            self.wf(),
        ensures
            match r {
                Some(i) => i < self.0@.len() && self.0@[i as int].0@ == name@ && self@.dom().contains(name@) && self@[name@] == self.0@[i as int].1@,
                None => !self@.dom().contains(name@),
            },
    {
        let mut i: usize = 0;
        while i < self.0.len()
            invariant
                i <= self.0@.len(),
                self.wf(),
                forall|j: int| 0 <= j < i ==> (#[trigger] self.0@[j]).0@ != name@,
            decreases self.0@.len() - i,
        {
            if same_text(self.0[i].0.as_str(), name) {
                proof {
                    self.lemma_at(i as int);
                }
                return Some(i);
            }
            i += 1;
        }
        assert forall|j: int| !route_at(self.0@, name@, j) by {}
        None
    }

    /// Merges the segments of a net's route, if it has one.
    pub fn merge(&mut self, name: &str, pins: &[GridPin], block_min_routing_layer: i32)
        requires
            old(self).wf(),
        ensures
            final(self).wf(),
            final(self)@ == merged_at(old(self)@, name@, pins@, block_min_routing_layer as int),
    {
        match self.find(name) {
            Some(i) => {
                merge_segments(pins, &mut self.0[i].1, block_min_routing_layer);
                proof {
                    Routes::lemma_changed_at(*old(self), *self, i as int);
                }
            },
            None => {},
        }
    }
}

/// The routes with one net's route merged, if it has one.
pub open spec fn merged_at(m: Map<Seq<char>, Seq<GSegment>>, name: Seq<char>, pins: Seq<GridPin>, block_min: int) -> Map<Seq<char>, Seq<GSegment>> {
    if m.dom().contains(name) { m.insert(name, merged_route(m[name], pins, block_min)) } else { m }
}

/// The routes with those of the first `k` nets merged.
pub open spec fn merged_upto(m: Map<Seq<char>, Seq<GSegment>>, nets: Seq<RemainingNet>, block_min: int, k: int) -> Map<Seq<char>, Seq<GSegment>>
    decreases k,
{
    if k <= 0 { m } else { merged_at(merged_upto(m, nets, block_min, k - 1), nets[k - 1].name@, nets[k - 1].pins@, block_min) }
}

/// Completes what the router gave: the nets that were routed get their guides, then the routes of all nets are
/// merged. Stops at the first net that cannot be given guides.
pub fn find_routing(
    routes: &mut Routes, routed: &[RemainingNet], nets: &[RemainingNet], min_routing_layer: i32, max_routing_layer: i32, block_max_routing_layer: i32, block_min_routing_layer: i32,
) -> (r: Result<(), NoRouteGuides>)
    requires
        old(routes).wf(),
        forall|i: int| 0 <= i < routed@.len() ==> local_guides_fit(
            completed_upto(
                old(routes)@, routed@,
                (GuideLayers { min: min_routing_layer as int, max: max_routing_layer as int, block_max: block_max_routing_layer as int }),
                i,
            ),
            #[trigger] routed@[i], min_routing_layer as int, max_routing_layer as int,
        ),
    ensures
        final(routes).wf(),
        ({
            let g = GuideLayers { min: min_routing_layer as int, max: max_routing_layer as int, block_max: block_max_routing_layer as int };
            let m = old(routes)@;
            let all = completed_upto(m, routed@, g, routed@.len() as int);
            match r {
                Ok(()) => {
                    &&& forall|i: int| 0 <= i < routed@.len() ==> !guideless(completed_upto(m, routed@, g, i), #[trigger] routed@[i])
                    &&& final(routes)@ == merged_upto(all, nets@, block_min_routing_layer as int, nets@.len() as int)
                },
                Err(e) => exists|k: int| {
                    &&& 0 <= k < routed@.len()
                    &&& guideless(completed_upto(m, routed@, g, k), #[trigger] routed@[k])
                    &&& forall|i: int| 0 <= i < k ==> !guideless(completed_upto(m, routed@, g, i), #[trigger] routed@[i])
                    &&& e.net@ == routed@[k].name@
                },
            }
        }),
{
    match add_remaining_guides(routes, routed, min_routing_layer, max_routing_layer, block_max_routing_layer) {
        Ok(()) => {},
        Err(e) => {
            return Err(e);
        },
    }
    connect_pad_pins(routes);
    let ghost all = routes@;
    let mut k: usize = 0;
    while k < nets.len()
        invariant
            k <= nets@.len(),
            routes.wf(),
            routes@ == merged_upto(all, nets@, block_min_routing_layer as int, k as int),
        decreases nets@.len() - k,
    {
        routes.merge(nets[k].name.as_str(), nets[k].pins.as_slice(), block_min_routing_layer);
        k += 1;
    }
    Ok(())
}

/// Makes routes of what the router gave: every net is completed, then its route is merged. Stops at the first
/// net that cannot be given guides.
pub fn finish_routes(routes: &mut Routes, nets: &[RemainingNet], min_routing_layer: i32, max_routing_layer: i32, block_max_routing_layer: i32, block_min_routing_layer: i32) -> (r: Result<(), NoRouteGuides>)
    requires
        old(routes).wf(),
        forall|i: int| 0 <= i < nets@.len() ==> local_guides_fit(
            completed_upto(
                old(routes)@, nets@,
                (GuideLayers { min: min_routing_layer as int, max: max_routing_layer as int, block_max: block_max_routing_layer as int }),
                i,
            ),
            #[trigger] nets@[i], min_routing_layer as int, max_routing_layer as int,
        ),
    ensures
        final(routes).wf(),
        ({
            let g = GuideLayers { min: min_routing_layer as int, max: max_routing_layer as int, block_max: block_max_routing_layer as int };
            let m = old(routes)@;
            let all = completed_upto(m, nets@, g, nets@.len() as int);
            match r {
                Ok(()) => {
                    &&& forall|i: int| 0 <= i < nets@.len() ==> !guideless(completed_upto(m, nets@, g, i), #[trigger] nets@[i])
                    &&& final(routes)@ == merged_upto(all, nets@, block_min_routing_layer as int, nets@.len() as int)
                },
                Err(e) => exists|k: int| {
                    &&& 0 <= k < nets@.len()
                    &&& guideless(completed_upto(m, nets@, g, k), #[trigger] nets@[k])
                    &&& forall|i: int| 0 <= i < k ==> !guideless(completed_upto(m, nets@, g, i), #[trigger] nets@[i])
                    &&& e.net@ == nets@[k].name@
                },
            }
        }),
{
    find_routing(routes, nets, nets, min_routing_layer, max_routing_layer, block_max_routing_layer, block_min_routing_layer)
}

/// A net's route: empty for a net without one.
pub open spec fn route_of(m: Map<Seq<char>, Seq<GSegment>>, name: Seq<char>) -> Seq<GSegment> {
    if m.dom().contains(name) { m[name] } else { Seq::empty() }
}

/// What [`add_remaining_guides`] is given besides the routes.
pub struct GuideLayers {
    pub min: int,
    pub max: int,
    pub block_max: int,
}

/// A net's route with what it lacked: an empty route gets the guides of a local net, any other the
/// stacks up to its top-level pins.
pub open spec fn completed(m: Map<Seq<char>, Seq<GSegment>>, n: RemainingNet, g: GuideLayers) -> Seq<GSegment> {
    let r = route_of(m, n.name@);
    if r.len() == 0 {
        local_guides(n.pins@, g.min, g.max)
    } else {
        r + top_stacks(n.pins@, g.block_max, n.pins@.len() as int)
    }
}

/// Whether a net cannot be given guides: its route is empty and its pins are not on one cell.
pub open spec fn guideless(m: Map<Seq<char>, Seq<GSegment>>, n: RemainingNet) -> bool {
    n.made && route_of(m, n.name@).len() == 0 && !on_one_cell(n.pins@)
}

/// Whether the guides of a net without a route can be built: it has a pin, and its stack ends below
/// the largest layer.
pub open spec fn local_guides_fit(m: Map<Seq<char>, Seq<GSegment>>, n: RemainingNet, min: int, max: int) -> bool {
    n.made && route_of(m, n.name@).len() == 0 ==> n.pins@.len() > 0 && local_layers(n.pins@, min, max).1 < i32::MAX
}

/// The routes after the first `k` nets are completed.
pub open spec fn completed_upto(m: Map<Seq<char>, Seq<GSegment>>, nets: Seq<RemainingNet>, g: GuideLayers, k: int) -> Map<Seq<char>, Seq<GSegment>>
    decreases k,
{
    if k <= 0 {
        m
    } else {
        let w = completed_upto(m, nets, g, k - 1);
        if nets[k - 1].made {
            w.insert(nets[k - 1].name@, completed(w, nets[k - 1], g))
        } else {
            w
        }
    }
}

/// Completes every net the router was given. An empty route (or none, which adds one) gets the
/// guides of a local net, any other the stacks up to its top-level pins. Stops at the first net that
/// cannot be given guides.
pub fn add_remaining_guides(routes: &mut Routes, nets: &[RemainingNet], min_routing_layer: i32, max_routing_layer: i32, block_max_routing_layer: i32) -> (r: Result<(), NoRouteGuides>)
    requires
        old(routes).wf(),
        forall|i: int| 0 <= i < nets@.len() ==> local_guides_fit(
            completed_upto(
                old(routes)@, nets@,
                (GuideLayers { min: min_routing_layer as int, max: max_routing_layer as int, block_max: block_max_routing_layer as int }),
                i,
            ),
            #[trigger] nets@[i], min_routing_layer as int, max_routing_layer as int,
        ),
    ensures
        final(routes).wf(),
        ({
            let g = GuideLayers { min: min_routing_layer as int, max: max_routing_layer as int, block_max: block_max_routing_layer as int };
            let m = old(routes)@;
            match r {
                Ok(()) => {
                    &&& forall|i: int| 0 <= i < nets@.len() ==> !guideless(completed_upto(m, nets@, g, i), #[trigger] nets@[i])
                    &&& final(routes)@ == completed_upto(m, nets@, g, nets@.len() as int)
                },
                Err(e) => exists|k: int| {
                    &&& 0 <= k < nets@.len()
                    &&& guideless(completed_upto(m, nets@, g, k), #[trigger] nets@[k])
                    &&& forall|i: int| 0 <= i < k ==> !guideless(completed_upto(m, nets@, g, i), #[trigger] nets@[i])
                    &&& e.net@ == nets@[k].name@
                    &&& final(routes)@ == completed_upto(m, nets@, g, k).insert(nets@[k].name@, Seq::empty())
                },
            }
        }),
{
    let ghost g = GuideLayers { min: min_routing_layer as int, max: max_routing_layer as int, block_max: block_max_routing_layer as int };
    let ghost m = routes@;
    let mut i: usize = 0;
    while i < nets.len()
        invariant
            i <= nets@.len(),
            routes.wf(),
            g == (GuideLayers { min: min_routing_layer as int, max: max_routing_layer as int, block_max: block_max_routing_layer as int }),
            m == old(routes)@,
            forall|i: int| 0 <= i < nets@.len() ==> local_guides_fit(
                completed_upto(m, nets@, g, i), #[trigger] nets@[i], min_routing_layer as int, max_routing_layer as int),
            forall|j: int| 0 <= j < i ==> !guideless(completed_upto(m, nets@, g, j), #[trigger] nets@[j]),
            routes@ == completed_upto(m, nets@, g, i as int),
        decreases nets@.len() - i,
    {
        let n = &nets[i];
        if n.made {
            let ghost w = routes@;
            let k: usize = routes.entry(n.name.as_str());
            let empty = routes.0[k].1.len() == 0;
            if empty {
                match add_guides_for_local_net(n.name.as_str(), n.pins.as_slice(), min_routing_layer, max_routing_layer) {
                    Ok(v) => {
                        let ghost x = v@;
                        routes.extend(k, v);
                        proof {
                            assert(route_of(w, n.name@) + x =~= x);
                            assert(routes@ =~= w.insert(n.name@, x));
                        }
                    },
                    Err(e) => {
                        proof {
                            assert(route_of(w, n.name@) =~= Seq::<GSegment>::empty());
                            assert(guideless(completed_upto(m, nets@, g, i as int), nets@[i as int]));
                        }
                        return Err(e);
                    },
                }
            } else {
                let v = connect_top_level_pins(n.pins.as_slice(), block_max_routing_layer);
                let ghost x = v@;
                routes.extend(k, v);
                assert(routes@ =~= w.insert(n.name@, route_of(w, n.name@) + x));
            }
        }
        i += 1;
    }
    Ok(())
}

/// The pads have no connections of their own: the routes stay as they are.
pub fn connect_pad_pins(routes: &mut Routes)
    ensures
        *final(routes) == *old(routes),
{
}

/// How many segment ends and pins meet at a point.
pub open spec fn meeting(segs: Seq<GSegment>, pins: Seq<GridPin>, p: GridPin) -> nat {
    ends_at(segs, segs.len() as int, p) + pins_at(pins, pins.len() as int, p)
}

/// How many ends of the first `n` segments lie at a point.
pub open spec fn ends_at(segs: Seq<GSegment>, n: int, p: GridPin) -> nat
    decreases n,
{
    if n <= 0 {
        0
    } else {
        let s = segs[n - 1];
        ends_at(segs, n - 1, p) + (if (s.init_x, s.init_y, s.init_layer) == p { 1nat } else { 0nat })
            + (if (s.final_x, s.final_y, s.final_layer) == p { 1nat } else { 0nat })
    }
}

/// How many of the first `n` pins lie at a point.
pub open spec fn pins_at(pins: Seq<GridPin>, n: int, p: GridPin) -> nat
    decreases n,
{
    if n <= 0 { 0 } else { pins_at(pins, n - 1, p) + (if pins[n - 1] == p { 1nat } else { 0nat }) }
}

pub open spec fn least(a: i32, b: i32) -> i32 {
    if a < b { a } else { b }
}

pub open spec fn greatest(a: i32, b: i32) -> i32 {
    if a > b { a } else { b }
}

/// The lower-left and upper-right corners of a segment.
pub open spec fn span(s: GSegment) -> (i32, i32, i32, i32) {
    (least(s.init_x, s.final_x), least(s.init_y, s.final_y), greatest(s.init_x, s.final_x), greatest(s.init_y, s.final_y))
}

/// The point where two collinear segments of one layer meet end to end.
pub open spec fn meeting_point(a: GSegment, b: GSegment) -> Option<GridPin> {
    let ((ix0, iy0, fx0, fy0), (ix1, iy1, fx1, fy1)) = (span(a), span(b));
    if ix0 == fx0 && ix1 == fx1 && ix0 == ix1 {
        if iy0 == fy1 {
            Some((ix0, iy0, a.init_layer))
        } else if fy0 == iy1 {
            Some((ix1, iy1, b.init_layer))
        } else {
            None
        }
    } else if iy0 == fy0 && iy1 == fy1 && iy0 == iy1 {
        if ix0 == fx1 {
            Some((ix0, iy0, a.init_layer))
        } else if fx0 == ix1 {
            Some((ix1, iy1, b.init_layer))
        } else {
            None
        }
    } else {
        None
    }
}

/// Whether two consecutive segments are wires of one layer, at or above the block's min routing
/// layer, that meet end to end where nothing else does. The ends and pins are those of `segs`.
pub open spec fn joins(a: GSegment, b: GSegment, segs: Seq<GSegment>, pins: Seq<GridPin>, block_min: int) -> bool {
    &&& a.init_layer == a.final_layer && b.init_layer == b.final_layer && a.init_layer == b.init_layer
    &&& a.init_layer >= block_min
    &&& meeting_point(a, b) matches Some(p) && meeting(segs, pins, p) == 2
}

/// Two segments as one: the second, over the span of both.
pub open spec fn join(a: GSegment, b: GSegment) -> GSegment {
    let ((ix0, iy0, fx0, fy0), (ix1, iy1, fx1, fy1)) = (span(a), span(b));
    GSegment {
        init_x: least(ix0, ix1),
        init_y: least(iy0, iy1),
        final_x: greatest(fx0, fx1),
        final_y: greatest(fy0, fy1),
        ..b
    }
}

/// A segment and those after it, each folded into the next where the two join.
pub open spec fn merged(cur: GSegment, rest: Seq<GSegment>, segs: Seq<GSegment>, pins: Seq<GridPin>, block_min: int) -> Seq<GSegment>
    decreases rest.len(),
{
    if rest.len() == 0 {
        seq![cur]
    } else if joins(cur, rest[0], segs, pins, block_min) {
        merged(join(cur, rest[0]), rest.drop_first(), segs, pins, block_min)
    } else {
        seq![cur] + merged(rest[0], rest.drop_first(), segs, pins, block_min)
    }
}

/// A route with its collinear segments merged.
pub open spec fn merged_route(segs: Seq<GSegment>, pins: Seq<GridPin>, block_min: int) -> Seq<GSegment> {
    if segs.len() == 0 { segs } else { merged(segs[0], segs.drop_first(), segs, pins, block_min) }
}

/// Whether exactly two ends and pins meet at a point.
fn two_meet(segs: &Vec<GSegment>, pins: &[GridPin], p: GridPin) -> (b: bool)
    ensures
        b == (meeting(segs@, pins@, p) == 2),
{
    let mut n: usize = 0;
    let mut i: usize = 0;
    while i < segs.len()
        invariant
            i <= segs@.len(),
            n <= 2,
            n == (if ends_at(segs@, i as int, p) > 2 { 3 } else { ends_at(segs@, i as int, p) }),
        decreases segs@.len() - i,
    {
        let s = segs[i];
        if s.init_x == p.0 && s.init_y == p.1 && s.init_layer == p.2 {
            n += 1;
        }
        if s.final_x == p.0 && s.final_y == p.1 && s.final_layer == p.2 {
            n += 1;
        }
        i += 1;
        if n > 2 {
            proof {
                lemma_ends_mono(segs@, i as int, segs@.len() as int, p);
            }
            return false;
        }
    }
    i = 0;
    while i < pins.len()
        invariant
            i <= pins@.len(),
            n <= 2,
            n == ends_at(segs@, segs@.len() as int, p) + pins_at(pins@, i as int, p),
        decreases pins@.len() - i,
    {
        let q = pins[i];
        if q.0 == p.0 && q.1 == p.1 && q.2 == p.2 {
            n += 1;
        }
        i += 1;
        if n > 2 {
            proof {
                lemma_pins_mono(pins@, i as int, pins@.len() as int, p);
            }
            return false;
        }
    }
    n == 2
}

proof fn lemma_ends_mono(segs: Seq<GSegment>, a: int, b: int, p: GridPin)
    requires
        a <= b,
    ensures
        ends_at(segs, a, p) <= ends_at(segs, b, p),
    decreases b - a,
{
    if a < b {
        lemma_ends_mono(segs, a, b - 1, p);
    }
}

proof fn lemma_pins_mono(pins: Seq<GridPin>, a: int, b: int, p: GridPin)
    requires
        a <= b,
    ensures
        pins_at(pins, a, p) <= pins_at(pins, b, p),
    decreases b - a,
{
    if a < b {
        lemma_pins_mono(pins, a, b - 1, p);
    }
}

/// Two collinear segments that meet end to end, where exactly two things meet, as their span.
fn segments_connect(seg0: &GSegment, seg1: &GSegment, segs: &Vec<GSegment>, pins: &[GridPin]) -> (r: Option<GSegment>)
    ensures
        r is Some <==> (meeting_point(*seg0, *seg1) matches Some(p) && meeting(segs@, pins@, p) == 2),
        r matches Some(s) ==> s == join(*seg0, *seg1),
{
    let (ix0, iy0) = (seg0.init_x.min(seg0.final_x), seg0.init_y.min(seg0.final_y));
    let (fx0, fy0) = (seg0.final_x.max(seg0.init_x), seg0.final_y.max(seg0.init_y));
    let (ix1, iy1) = (seg1.init_x.min(seg1.final_x), seg1.init_y.min(seg1.final_y));
    let (fx1, fy1) = (seg1.final_x.max(seg1.init_x), seg1.final_y.max(seg1.init_y));
    let point = if ix0 == fx0 && ix1 == fx1 && ix0 == ix1 {
        if iy0 == fy1 {
            Some((ix0, iy0, seg0.init_layer))
        } else if fy0 == iy1 {
            Some((ix1, iy1, seg1.init_layer))
        } else {
            None
        }
    } else if iy0 == fy0 && iy1 == fy1 && iy0 == iy1 {
        if ix0 == fx1 {
            Some((ix0, iy0, seg0.init_layer))
        } else if fx0 == ix1 {
            Some((ix1, iy1, seg1.init_layer))
        } else {
            None
        }
    } else {
        None
    };
    assert(point == meeting_point(*seg0, *seg1));
    match point {
        Some(p) => {
            if two_meet(segs, pins, p) {
                Some(
                    GSegment {
                        init_x: ix0.min(ix1),
                        init_y: iy0.min(iy1),
                        init_layer: seg1.init_layer,
                        final_x: fx0.max(fx1),
                        final_y: fy0.max(fy1),
                        final_layer: seg1.final_layer,
                        is_jumper: seg1.is_jumper,
                    },
                )
            } else {
                None
            }
        },
        None => None,
    }
}

/// Folds each segment into the next when both are wires of one layer at or above the block's min
/// routing layer and meet end to end with nothing else there.
///
/// What meets at a point is counted before any merge, over every segment end and every pin. The last
/// segment is always kept, and the order stays.
pub fn merge_segments(pins: &[GridPin], route: &mut Vec<GSegment>, block_min_routing_layer: i32)
    ensures
        final(route)@ == merged_route(old(route)@, pins@, block_min_routing_layer as int),
{
    if route.len() == 0 {
        return;
    }
    let ghost segs = route@;
    let ghost want = merged_route(segs, pins@, block_min_routing_layer as int);
    let mut out: Vec<GSegment> = Vec::new();
    let mut cur = route[0];
    let mut i: usize = 1;
    assert(segs.drop_first() =~= segs.skip(1));
    assert(out@ + merged(cur, segs.skip(1), segs, pins@, block_min_routing_layer as int) =~= want);
    while i < route.len()
        invariant
            1 <= i <= segs.len(),
            route@ == segs,
            out@ + merged(cur, segs.skip(i as int), segs, pins@, block_min_routing_layer as int) == want,
        decreases segs.len() - i,
    {
        let next = route[i];
        let ghost o = out@;
        let ghost rest = segs.skip(i as int);
        proof {
            assert(rest[0] == next);
            assert(rest.drop_first() =~= segs.skip(i + 1));
        }
        let planar = cur.init_layer == cur.final_layer && next.init_layer == next.final_layer && cur.init_layer == next.init_layer
            && cur.init_layer >= block_min_routing_layer;
        let joined = if planar { segments_connect(&cur, &next, route, pins) } else { None };
        match joined {
            Some(s) => {
                cur = s;
            },
            None => {
                let ghost c0 = cur;
                out.push(cur);
                cur = next;
                proof {
                    let m = merged(next, segs.skip(i + 1), segs, pins@, block_min_routing_layer as int);
                    assert(out@ + m =~= o + (seq![c0] + m));
                }
            },
        }
        i += 1;
    }
    proof {
        assert(segs.skip(i as int) =~= Seq::<GSegment>::empty());
        assert(out@.push(cur) =~= out@ + seq![cur]);
    }
    out.push(cur);
    *route = out;
}

/// Whether a segment takes in a point of a layer.
pub open spec fn takes_in(s: GSegment, x: int, y: int, layer: int) -> bool {
    let (ix, iy, fx, fy) = span(s);
    ix <= x <= fx && iy <= y <= fy && least(s.init_layer, s.final_layer) <= layer <= greatest(s.init_layer, s.final_layer)
}

/// Whether one of the segments takes in a point of a layer.
pub open spec fn route_takes_in(segs: Seq<GSegment>, x: int, y: int, layer: int) -> bool {
    exists|i: int| 0 <= i < segs.len() && takes_in(#[trigger] segs[i], x, y, layer)
}

/// Merging segments changes nothing of where a route runs: it takes in the same points of the same
/// layers, in no more segments.
pub proof fn merging_keeps_the_route(segs: Seq<GSegment>, pins: Seq<GridPin>, block_min: int, x: int, y: int, layer: int)
    ensures
        route_takes_in(merged_route(segs, pins, block_min), x, y, layer) <==> route_takes_in(segs, x, y, layer),
        merged_route(segs, pins, block_min).len() <= segs.len(),
        segs.len() > 0 ==> merged_route(segs, pins, block_min).len() > 0,
{
    if segs.len() > 0 {
        lemma_merged(segs[0], segs.drop_first(), segs, pins, block_min, x, y, layer);
        assert(segs =~= seq![segs[0]] + segs.drop_first());
        lemma_takes_in_cons(segs[0], segs.drop_first(), x, y, layer);
    }
}

proof fn lemma_takes_in_cons(s: GSegment, rest: Seq<GSegment>, x: int, y: int, layer: int)
    ensures
        route_takes_in(seq![s] + rest, x, y, layer) <==> takes_in(s, x, y, layer) || route_takes_in(rest, x, y, layer),
{
    let all = seq![s] + rest;
    if route_takes_in(all, x, y, layer) {
        let i = choose|i: int| 0 <= i < all.len() && takes_in(#[trigger] all[i], x, y, layer);
        if i > 0 {
            assert(rest[i - 1] == all[i]);
        }
    }
    if takes_in(s, x, y, layer) {
        assert(all[0] == s);
    }
    if route_takes_in(rest, x, y, layer) {
        let i = choose|i: int| 0 <= i < rest.len() && takes_in(#[trigger] rest[i], x, y, layer);
        assert(all[i + 1] == rest[i]);
    }
}

proof fn lemma_merged(cur: GSegment, rest: Seq<GSegment>, segs: Seq<GSegment>, pins: Seq<GridPin>, block_min: int, x: int, y: int, layer: int)
    ensures
        route_takes_in(merged(cur, rest, segs, pins, block_min), x, y, layer) <==> takes_in(cur, x, y, layer) || route_takes_in(
            rest, x, y, layer),
        1 <= merged(cur, rest, segs, pins, block_min).len() <= rest.len() + 1,
    decreases rest.len(),
{
    if rest.len() == 0 {
        lemma_takes_in_cons(cur, rest, x, y, layer);
        assert(seq![cur] + rest =~= seq![cur]);
    } else {
        let tail = rest.drop_first();
        assert(rest =~= seq![rest[0]] + tail);
        lemma_takes_in_cons(rest[0], tail, x, y, layer);
        if joins(cur, rest[0], segs, pins, block_min) {
            let j = join(cur, rest[0]);
            lemma_merged(j, tail, segs, pins, block_min, x, y, layer);
            assert(takes_in(j, x, y, layer) <==> takes_in(cur, x, y, layer) || takes_in(rest[0], x, y, layer));
        } else {
            let m = merged(rest[0], tail, segs, pins, block_min);
            lemma_merged(rest[0], tail, segs, pins, block_min, x, y, layer);
            lemma_takes_in_cons(cur, m, x, y, layer);
        }
    }
}

// ---- what completing and merging leave ----

/// Whether a layer is the least of a bound and the layers of pins.
pub open spec fn is_least_layer(pins: Seq<GridPin>, bound: int, l: int) -> bool {
    &&& l <= bound
    &&& forall|i: int| 0 <= i < pins.len() ==> l <= (#[trigger] pins[i]).2
    &&& l == bound || exists|i: int| 0 <= i < pins.len() && (#[trigger] pins[i]).2 == l
}

/// Whether a layer is the greatest of a bound and the layers of pins.
pub open spec fn is_greatest_layer(pins: Seq<GridPin>, bound: int, l: int) -> bool {
    &&& l >= bound
    &&& forall|i: int| 0 <= i < pins.len() ==> l >= (#[trigger] pins[i]).2
    &&& l == bound || exists|i: int| 0 <= i < pins.len() && (#[trigger] pins[i]).2 == l
}

proof fn lemma_highest(pins: Seq<GridPin>, n: int)
    requires
        0 <= n <= pins.len(),
    ensures
        is_greatest_layer(pins.take(n), -1, highest(pins, n)),
        is_least_layer(pins.take(n), i32::MAX as int, lowest(pins, n)),
    decreases n,
{
    if n > 0 {
        lemma_highest(pins, n - 1);
        let (now, before) = (pins.take(n), pins.take(n - 1));
        assert(now[n - 1] == pins[n - 1]);
        assert forall|i: int| 0 <= i < now.len() implies highest(pins, n) >= (#[trigger] now[i]).2 && lowest(pins, n) <= now[i].2 by {
            if i < n - 1 {
                assert(before[i] == now[i]);
            }
        }
        if highest(pins, n) == highest(pins, n - 1) && highest(pins, n) != -1 {
            let i = choose|i: int| 0 <= i < before.len() && (#[trigger] before[i]).2 == highest(pins, n);
            assert(now[i].2 == highest(pins, n));
        }
        if lowest(pins, n) == lowest(pins, n - 1) && lowest(pins, n) != i32::MAX {
            let i = choose|i: int| 0 <= i < before.len() && (#[trigger] before[i]).2 == lowest(pins, n);
            assert(now[i].2 == lowest(pins, n));
        }
    }
}

/// A net whose pins are on one cell gets a via there from each layer to the next, from the lowest of its pins and the
/// lowest routed layer up to its highest pin, and no further than the highest routed layer where the pin is there or
/// above.
pub proof fn a_local_net_is_one_stack(pins: Seq<GridPin>, min: i32, max: i32, out: Seq<GSegment>, from: int, top: int)
    requires
        pins.len() > 0,
        out == local_guides(pins, min as int, max as int),
        is_least_layer(pins, min as int, from),
        is_greatest_layer(pins, -1, top),
        top < i32::MAX,
    ensures
        ({
            let to = if top >= max { top - 1 } else { top };
            &&& out.len() == (if from <= to { to - from + 1 } else { 0 })
            &&& forall|k: int| 0 <= k < out.len() ==> is_via_at(#[trigger] out[k], pins[0], from + k)
        }),
{
    let n = pins.len() as int;
    lemma_highest(pins, n);
    assert(pins.take(n) =~= pins);
    let h = highest(pins, n);
    let l = lowest(pins, n);
    assert(h == top) by {
        if h != -1 {
            let i = choose|i: int| 0 <= i < pins.len() && (#[trigger] pins[i]).2 == h;
            assert(top >= pins[i].2);
        }
        if top != -1 {
            let i = choose|i: int| 0 <= i < pins.len() && (#[trigger] pins[i]).2 == top;
            assert(h >= pins[i].2);
        }
    }
    assert((if l < min { l } else { min as int }) == from) by {
        if from != min {
            let i = choose|i: int| 0 <= i < pins.len() && (#[trigger] pins[i]).2 == from;
            assert(l <= pins[i].2);
        }
        if l < min {
            if l != i32::MAX {
                let i = choose|i: int| 0 <= i < pins.len() && (#[trigger] pins[i]).2 == l;
                assert(from <= pins[i].2);
            }
        }
    }
}

/// Every net that was made is completed, and every other route stays: one without a route gets the guides of a local
/// net, and one with a route keeps it and gets the stacks up to its top-level pins behind it.
pub proof fn every_made_net_is_completed(m: Map<Seq<char>, Seq<GSegment>>, nets: Seq<RemainingNet>, g: GuideLayers, k: int, name: Seq<char>)
    requires
        0 <= k <= nets.len(),
        forall|i: int, j: int| 0 <= i < j < nets.len() ==> (#[trigger] nets[i]).name@ != (#[trigger] nets[j]).name@,
    ensures
        ({
            let now = completed_upto(m, nets, g, k);
            &&& (forall|i: int| 0 <= i < k && (#[trigger] nets[i]).made ==> nets[i].name@ != name) ==> now.dom().contains(name) == m.dom().contains(name) && (m.dom().contains(
                name,
            ) ==> now[name] == m[name])
            &&& forall|i: int|
                0 <= i < k && (#[trigger] nets[i]).made ==> {
                    let before = route_of(m, nets[i].name@);
                    &&& now.dom().contains(nets[i].name@)
                    &&& before.len() == 0 ==> now[nets[i].name@] == local_guides(nets[i].pins@, g.min, g.max)
                    &&& before.len() > 0 ==> now[nets[i].name@] == before + top_stacks(nets[i].pins@, g.block_max, nets[i].pins@.len() as int)
                }
        }),
    decreases k,
{
    if k > 0 {
        every_made_net_is_completed(m, nets, g, k - 1, name);
        let last = nets[k - 1];
        every_made_net_is_completed(m, nets, g, k - 1, last.name@);
        let (now, before) = (completed_upto(m, nets, g, k), completed_upto(m, nets, g, k - 1));
        assert(route_of(before, last.name@) == route_of(m, last.name@));
        assert forall|i: int| 0 <= i < k && (#[trigger] nets[i]).made implies {
            let was = route_of(m, nets[i].name@);
            &&& now.dom().contains(nets[i].name@)
            &&& was.len() == 0 ==> now[nets[i].name@] == local_guides(nets[i].pins@, g.min, g.max)
            &&& was.len() > 0 ==> now[nets[i].name@] == was + top_stacks(nets[i].pins@, g.block_max, nets[i].pins@.len() as int)
        } by {
            if i < k - 1 {
                assert(nets[i].name@ != nets[k - 1].name@);
            }
        }
    }
}

/// Whether a segment ends at a point.
pub open spec fn ends_there(s: GSegment, p: GridPin) -> bool {
    (s.init_x, s.init_y, s.init_layer) == p || (s.final_x, s.final_y, s.final_layer) == p
}

/// Whether nothing but two segments of a list, each with one end, is at a point.
pub open spec fn only_two_meet(segs: Seq<GSegment>, pins: Seq<GridPin>, i: int, p: GridPin) -> bool {
    &&& ends_there(segs[i], p) && !((segs[i].init_x, segs[i].init_y, segs[i].init_layer) == (segs[i].final_x, segs[i].final_y, segs[i].final_layer))
    &&& ends_there(segs[i + 1], p) && !((segs[i + 1].init_x, segs[i + 1].init_y, segs[i + 1].init_layer) == (
        segs[i + 1].final_x,
        segs[i + 1].final_y,
        segs[i + 1].final_layer,
    ))
    &&& forall|k: int| 0 <= k < segs.len() && k != i && k != i + 1 ==> !ends_there(#[trigger] segs[k], p)
    &&& forall|k: int| 0 <= k < pins.len() ==> #[trigger] pins[k] != p
}

proof fn lemma_two_ends(segs: Seq<GSegment>, pins: Seq<GridPin>, i: int, p: GridPin, n: int)
    requires
        0 <= i < segs.len() - 1,
        only_two_meet(segs, pins, i, p),
        0 <= n <= segs.len(),
    ensures
        ends_at(segs, n, p) == (if n > i + 1 { 2nat } else if n > i { 1nat } else { 0nat }),
    decreases n,
{
    if n > 0 {
        lemma_two_ends(segs, pins, i, p, n - 1);
        if n - 1 != i && n - 1 != i + 1 {
            assert(!ends_there(segs[n - 1], p));
        }
    }
}

proof fn lemma_no_pins(pins: Seq<GridPin>, p: GridPin, n: int)
    requires
        0 <= n <= pins.len(),
        forall|k: int| 0 <= k < pins.len() ==> #[trigger] pins[k] != p,
    ensures
        pins_at(pins, n, p) == 0,
    decreases n,
{
    if n > 0 {
        lemma_no_pins(pins, p, n - 1);
        assert(pins[n - 1] != p);
    }
}

/// Where a route starts with two level or upright wires of one routed layer that meet end to end where nothing else
/// does, they are one wire over both, and the route is shorter.
pub proof fn two_wires_that_meet_alone_become_one(segs: Seq<GSegment>, pins: Seq<GridPin>, block_min: int, p: GridPin)
    requires
        segs.len() >= 2,
        segs[0].init_layer == segs[0].final_layer == segs[1].init_layer,
        segs[1].init_layer == segs[1].final_layer,
        segs[0].init_layer >= block_min,
        p.2 == segs[0].init_layer,
        only_two_meet(segs, pins, 0, p),
        ({
            let ((ix0, iy0, fx0, fy0), (ix1, iy1, fx1, fy1)) = (span(segs[0]), span(segs[1]));
            ||| iy0 == fy0 && iy1 == fy1 && iy0 == iy1 && p.1 == iy0 && ((fx0 == ix1 && p.0 == ix1) || (ix0 == fx1 && p.0 == ix0))
            ||| ix0 == fx0 && ix1 == fx1 && ix0 == ix1 && p.0 == ix0 && ((fy0 == iy1 && p.1 == iy1) || (iy0 == fy1 && p.1 == iy0))
        }),
    ensures
        ({
            let out = merged_route(segs, pins, block_min);
            &&& out.len() < segs.len()
            &&& forall|x: int, y: int| takes_in(segs[0], x, y, p.2 as int) || takes_in(segs[1], x, y, p.2 as int) ==> #[trigger] takes_in(out[0], x, y, p.2 as int)
        }),
{
    let (a, b) = (segs[0], segs[1]);
    lemma_two_ends(segs, pins, 0, p, segs.len() as int);
    lemma_no_pins(pins, p, pins.len() as int);
    assert(meeting(segs, pins, p) == 2);
    let ((ix0, iy0, fx0, fy0), (ix1, iy1, fx1, fy1)) = (span(a), span(b));
    assert(meeting_point(a, b) == Some(p));
    assert(segs.drop_first()[0] == b);
    assert(joins(a, b, segs, pins, block_min));
    let rest = segs.drop_first().drop_first();
    assert(merged_route(segs, pins, block_min) == merged(join(a, b), rest, segs, pins, block_min));
    lemma_merged_head(join(a, b), rest, segs, pins, block_min);
}

/// What folding leaves in front covers what was there, in no more segments.
proof fn lemma_merged_head(cur: GSegment, rest: Seq<GSegment>, segs: Seq<GSegment>, pins: Seq<GridPin>, block_min: int)
    ensures
        ({
            let out = merged(cur, rest, segs, pins, block_min);
            &&& 1 <= out.len() <= rest.len() + 1
            &&& forall|x: int, y: int| takes_in(cur, x, y, cur.init_layer as int) ==> #[trigger] takes_in(out[0], x, y, cur.init_layer as int)
        }),
    decreases rest.len(),
{
    if rest.len() > 0 {
        if joins(cur, rest[0], segs, pins, block_min) {
            lemma_merged_head(join(cur, rest[0]), rest.drop_first(), segs, pins, block_min);
        } else {
            lemma_merged_head(rest[0], rest.drop_first(), segs, pins, block_min);
        }
    }
}

/// The highest layer is that of a pin, and no pin lies higher.
pub proof fn the_highest_pin_is_one_of_the_pins(pins: Seq<GridPin>, n: int)
    requires
        0 <= n,
    ensures
        is_most_of(highest(pins, n), -1, n, |k: int| pins[k].2 as int),
    decreases n,
{
    let f = |k: int| pins[k].2 as int;
    if n > 0 {
        the_highest_pin_is_one_of_the_pins(pins, n - 1);
        let m = highest(pins, (n - 1));
        assert forall|k: int| 0 <= k < n implies #[trigger] f(k) <= highest(pins, n) by {
            if k < n - 1 {
                assert(f(k) <= m);
            }
        }
        if highest(pins, n) == m {
            if m != -1 {
                let k = choose|k: int| 0 <= k < n - 1 && #[trigger] f(k) == m;
                assert(f(k) == highest(pins, n));
            }
        } else {
            assert(f(n - 1) == highest(pins, n));
        }
    }
}

/// The lowest layer is that of a pin, and no pin lies lower.
pub proof fn the_lowest_pin_is_one_of_the_pins(pins: Seq<GridPin>, n: int)
    requires
        0 <= n,
    ensures
        is_least_of(lowest(pins, n), i32::MAX as int, n, |k: int| pins[k].2 as int),
    decreases n,
{
    let f = |k: int| pins[k].2 as int;
    if n > 0 {
        the_lowest_pin_is_one_of_the_pins(pins, n - 1);
        let m = lowest(pins, (n - 1));
        assert forall|k: int| 0 <= k < n implies #[trigger] f(k) >= lowest(pins, n) by {
            if k < n - 1 {
                assert(f(k) >= m);
            }
        }
        if lowest(pins, n) == m {
            if m != i32::MAX as int {
                let k = choose|k: int| 0 <= k < n - 1 && #[trigger] f(k) == m;
                assert(f(k) == lowest(pins, n));
            }
        } else {
            assert(f(n - 1) == lowest(pins, n));
        }
    }
}

/// As many ends of segments lie at a place as segments start there and end there.
pub proof fn the_ends_at_a_place_are_counted(segs: Seq<GSegment>, p: GridPin, n: int)
    requires
        0 <= n,
    ensures
        ends_at(segs, n, p) as int == sum_of(
            n,
            |k: int| (if segs[k].init_x == p.0 && segs[k].init_y == p.1 && segs[k].init_layer == p.2 { 1int } else { 0int }) + (if segs[k].final_x == p.0 && segs[k].final_y == p.1 && segs[k].final_layer == p.2 { 1int } else { 0int }),
        ),
    decreases n,
{
    let f = |k: int| (if segs[k].init_x == p.0 && segs[k].init_y == p.1 && segs[k].init_layer == p.2 { 1int } else { 0int }) + (if segs[k].final_x == p.0 && segs[k].final_y == p.1 && segs[k].final_layer == p.2 { 1int } else { 0int });
    if n > 0 {
        the_ends_at_a_place_are_counted(segs, p, n - 1);
        lemma_sum_next(n - 1, f);
    } else {
        lemma_sum_none(f);
    }
}

/// As many pins lie at a place as are listed with it.
pub proof fn the_pins_at_a_place_are_counted(pins: Seq<GridPin>, p: GridPin, n: int)
    requires
        0 <= n,
    ensures
        pins_at(pins, n, p) as int == count_of(
            n,
            |k: int| pins[k] == p,
        ),
    decreases n,
{
    let f = |k: int| pins[k] == p;
    if n > 0 {
        the_pins_at_a_place_are_counted(pins, p, n - 1);
        lemma_count_next(n - 1, f);
    } else {
        lemma_count_none(f);
    }
}

} // verus!
