//! What the router decides around a route: which nets are routed anew after a change, which routes are
//! taken over from a database, and where pins go.

use crate::lists::{all_of, is_first_of, is_last_of, lemma_all_next, lemma_all_none};
use vstd::prelude::*;
use vstd::string::StringExecFns;
use vstd::multiset::Multiset;

use crate::callbacks::same_text;
use crate::cugr::grid_graph::Commit;
use crate::cugr::grnet::GrNet;
use crate::cugr::pattern_route::tnodes;
use crate::cugr::restore::{binds_pins, can_restore, differs_in_net, is_restored, is_route_tree, pin_hit, Restore};
use crate::cugr::tree::{can_walk, GrTree};
use crate::cugr::{stage_error_text, Cugr, StageError};
use crate::findrouting::{
    add_remaining_guides, completed_upto, guideless, local_guides_fit, on_one_cell, route_of, GridPin, GuideLayers, NoRouteGuides, RemainingNet, Routes,
};
use crate::global_route::results::NetRoute;
use crate::cugr::trace::{dirty_record, dirty_text};
use crate::text::{dec, is_text_less, lemma_text_less_trans, lemma_text_order, push_nat, push_text, text_less, texts};
use crate::vecs::copy_vec;
use crate::GSegment;

verus! {

/// A pin as the global router holds it.
#[derive(Debug)]
pub struct NetPin {
    pub name: String,
    pub is_port: bool,
    pub on_grid: (i32, i32),
    pub connection_layer: i32,
}

/// Where a pin is: its place on the grid and its layer.
pub struct PinPlace {
    pub x: i32,
    pub y: i32,
    pub layer: i32,
}

pub open spec fn pin_place(p: NetPin) -> PinPlace {
    PinPlace { x: p.on_grid.0, y: p.on_grid.1, layer: p.connection_layer }
}

/// The places of pins, repeats counted.
pub open spec fn pin_places(pins: Seq<NetPin>) -> Multiset<PinPlace> {
    pins.map_values(|p: NetPin| pin_place(p)).to_multiset()
}

/// Whether the pins of a net have moved: their places, repeats counted and in any order, differ.
pub fn pins_moved(before: &[NetPin], after: &[NetPin]) -> (moved: bool)
    ensures
        moved == (pin_places(before@) != pin_places(after@)),
{
    broadcast use vstd::seq_lib::group_to_multiset_ensures;
    broadcast use vstd::multiset::group_multiset_axioms;

    let mut left: Vec<(i32, i32, i32)> = Vec::new();
    let mut k: usize = 0;
    while k < after.len()
        invariant
            k <= after@.len(),
            left@ == keys_of(after@).take(k as int),
        decreases after@.len() - k,
    {
        left.push((after[k].on_grid.0, after[k].on_grid.1, after[k].connection_layer));
        k += 1;
        assert(left@ =~= keys_of(after@).take(k as int));
    }
    assert(keys_of(after@).take(k as int) =~= keys_of(after@));
    proof {
        lemma_keys(before@, after@);
    }
    let ghost b = keys_of(before@);
    let ghost a = keys_of(after@);
    let mut i: usize = 0;
    assert(b.take(0).to_multiset() =~= Multiset::empty());
    while i < before.len()
        invariant
            b == keys_of(before@),
            a == keys_of(after@),
            i <= before@.len(),
            a.to_multiset() == b.take(i as int).to_multiset().add(left@.to_multiset()),
            (pin_places(before@) == pin_places(after@)) == (b.to_multiset() == a.to_multiset()),
        decreases before@.len() - i,
    {
        let key = (before[i].on_grid.0, before[i].on_grid.1, before[i].connection_layer);
        assert(b[i as int] == key);
        let ghost left0 = left@;
        let mut j: usize = 0;
        while j < left.len() && !(left[j].0 == key.0 && left[j].1 == key.1 && left[j].2 == key.2)
            invariant
                left@ == left0,
                j <= left@.len(),
                forall|m: int| 0 <= m < j ==> left0[m] != key,
            decreases left@.len() - j,
        {
            j += 1;
        }
        if j == left.len() {
            proof {
                broadcast use vstd::seq_lib::group_to_multiset_ensures;
                broadcast use vstd::multiset::group_multiset_axioms;

                assert(!left0.contains(key));
                assert(left0.to_multiset().count(key) == 0);
                lemma_prefix_count(b, i as int, key);
                assert(b.to_multiset().count(key) > a.to_multiset().count(key));
            }
            return true;
        }
        let _ = left.remove(j);
        proof {
            broadcast use vstd::seq_lib::group_to_multiset_ensures;
            broadcast use vstd::multiset::group_multiset_axioms;

            assert(left0[j as int] == key);
            assert(left@ =~= left0.remove(j as int));
            assert(left0.contains(key));
            assert(left@.to_multiset() =~= left0.to_multiset().remove(key));
            assert(b.take(i + 1) =~= b.take(i as int).push(key));
            assert(b.take(i + 1).to_multiset() =~= b.take(i as int).to_multiset().insert(key));
            assert(a.to_multiset() =~= b.take(i + 1).to_multiset().add(left@.to_multiset()));
        }
        i += 1;
    }
    proof {
        assert(b.take(i as int) =~= b);
        if left@.len() == 0 {
            assert(left@ =~= Seq::empty());
            assert(a.to_multiset() =~= b.to_multiset());
        } else {
            assert(left@.contains(left@[0]));
            assert(a.to_multiset().count(left@[0]) > b.to_multiset().count(left@[0]));
        }
    }
    left.len() > 0
}

spec fn keys_of(pins: Seq<NetPin>) -> Seq<(i32, i32, i32)> {
    pins.map_values(|p: NetPin| (p.on_grid.0, p.on_grid.1, p.connection_layer))
}

proof fn lemma_prefix_count(b: Seq<(i32, i32, i32)>, i: int, key: (i32, i32, i32))
    requires
        0 <= i < b.len(),
        b[i] == key,
    ensures
        b.to_multiset().count(key) > b.take(i).to_multiset().count(key),
    decreases b.len(),
{
    broadcast use vstd::seq_lib::group_to_multiset_ensures;
    broadcast use vstd::multiset::group_multiset_axioms;

    let c = b.drop_last();
    assert(b =~= c.push(b.last()));
    if i == b.len() - 1 {
        assert(b.take(i) =~= c);
    } else {
        lemma_prefix_count(c, i, key);
        assert(c.take(i) =~= b.take(i));
    }
}

/// Places and keys stand for each other.
proof fn lemma_keys(before: Seq<NetPin>, after: Seq<NetPin>)
    ensures
        (pin_places(before) == pin_places(after)) == (keys_of(before).to_multiset() == keys_of(after).to_multiset()),
{
    let f = |k: (i32, i32, i32)| PinPlace { x: k.0, y: k.1, layer: k.2 };
    let g = |p: PinPlace| (p.x, p.y, p.layer);
    let pb = before.map_values(|p: NetPin| pin_place(p));
    let pa = after.map_values(|p: NetPin| pin_place(p));
    let (kb, ka) = (keys_of(before), keys_of(after));
    assert forall|k: (i32, i32, i32)| kb.to_multiset().count(k) == pb.to_multiset().count(f(k)) by {
        lemma_key_count(before, k);
    }
    assert forall|k: (i32, i32, i32)| ka.to_multiset().count(k) == pa.to_multiset().count(f(k)) by {
        lemma_key_count(after, k);
    }
    if pb.to_multiset() == pa.to_multiset() {
        assert forall|k: (i32, i32, i32)| kb.to_multiset().count(k) == ka.to_multiset().count(k) by {
            assert(kb.to_multiset().count(k) == pb.to_multiset().count(f(k)));
            assert(ka.to_multiset().count(k) == pa.to_multiset().count(f(k)));
        }
        assert(kb.to_multiset() =~= ka.to_multiset());
    }
    if kb.to_multiset() == ka.to_multiset() {
        assert forall|p: PinPlace| pb.to_multiset().count(p) == pa.to_multiset().count(p) by {
            let k = g(p);
            assert(f(k) == p);
            assert(kb.to_multiset().count(k) == pb.to_multiset().count(f(k)));
            assert(ka.to_multiset().count(k) == pa.to_multiset().count(f(k)));
        }
        assert(pb.to_multiset() =~= pa.to_multiset());
    }
}

proof fn lemma_key_count(pins: Seq<NetPin>, k: (i32, i32, i32))
    ensures
        keys_of(pins).to_multiset().count(k) == pins.map_values(|p: NetPin| pin_place(p)).to_multiset().count(PinPlace { x: k.0, y: k.1, layer: k.2 }),
    decreases pins.len(),
{
    broadcast use vstd::seq_lib::group_to_multiset_ensures;
    broadcast use vstd::multiset::group_multiset_axioms;

    let places = pins.map_values(|p: NetPin| pin_place(p));
    if pins.len() == 0 {
        assert(keys_of(pins) =~= Seq::empty());
        assert(places =~= Seq::empty());
    } else {
        let front = pins.drop_last();
        lemma_key_count(front, k);
        let last = pins.last();
        assert(keys_of(pins) =~= keys_of(front).push((last.on_grid.0, last.on_grid.1, last.connection_layer)));
        assert(places =~= front.map_values(|p: NetPin| pin_place(p)).push(pin_place(last)));
    }
}

/// Moves a pin to its access point: to the point's place on the grid, and to its layer unless the pin sits
/// above the highest routed layer. Without an access point the pin stays.
pub fn update_pin_access_point(pin: &mut NetPin, access_layer: Option<i32>, on_grid: (i32, i32), max_routing_layer: i32)
    ensures
        final(pin).name == old(pin).name,
        final(pin).is_port == old(pin).is_port,
        match access_layer {
            Some(z) => {
                &&& final(pin).on_grid == on_grid
                &&& final(pin).connection_layer == (if old(pin).connection_layer <= max_routing_layer { z } else { old(pin).connection_layer })
            },
            None => *final(pin) == *old(pin),
        },
{
    match access_layer {
        Some(z) => {
            if pin.connection_layer <= max_routing_layer {
                pin.connection_layer = z;
            }
            pin.on_grid = on_grid;
        },
        None => {},
    }
}

/// Whether all pins of a net stand at one place of the grid; a net without pins does too.
pub fn is_local(pins: &[NetPin]) -> (r: bool)
    ensures
        r == (forall|i: int, j: int| 0 <= i < pins@.len() && 0 <= j < pins@.len() ==> (#[trigger] pins@[i]).on_grid == (#[trigger] pins@[j]).on_grid),
{
    let mut k: usize = 1;
    while k < pins.len()
        invariant
            1 <= k,
            forall|i: int| 0 <= i < k && i < pins@.len() ==> (#[trigger] pins@[i]).on_grid == pins@[0].on_grid,
        decreases pins@.len() - k,
    {
        if pins[k].on_grid.0 != pins[0].on_grid.0 || pins[k].on_grid.1 != pins[0].on_grid.1 {
            assert(pins@[k as int].on_grid != pins@[0].on_grid);
            return false;
        }
        k += 1;
    }
    true
}

// ---- refusals ----

/// A run that this router does not make.
#[derive(Debug, Clone, Copy, PartialEq, Eq, Structural)]
pub enum RouteRefusal {
    /// The database has access points.
    AccessPoints,
    /// The slacks are a timer's, and none were captured.
    Timed,
    /// No slacks were captured for a call.
    NoCall { call: usize },
    /// Only some nets are to be routed.
    SomeNets,
}

/// What is said of it.
pub open spec fn refusal_text(e: RouteRefusal) -> Seq<char> {
    match e {
        RouteRefusal::AccessPoints => "cugr: pin access points in the database \u{2014} findODBAccessPoints is not modelled"@,
        RouteRefusal::Timed => "cugr: a clock with a liberty library \u{2014} the critical-net slacks are not modelled"@,
        RouteRefusal::NoCall { call } => "cugr: no captured slacks for CUGR call "@ + dec(call as int) + " \u{2014} not modelled"@,
        RouteRefusal::SomeNets => "cugr: set_nets_to_route (incremental routing) is not modelled"@,
    }
}

impl RouteRefusal {
    /// What is said of it.
    pub fn message(&self) -> (s: String)
        ensures
            s@ == refusal_text(*self),
    {
        match self {
            RouteRefusal::AccessPoints => String::from_str("cugr: pin access points in the database \u{2014} findODBAccessPoints is not modelled"),
            RouteRefusal::Timed => String::from_str("cugr: a clock with a liberty library \u{2014} the critical-net slacks are not modelled"),
            RouteRefusal::NoCall { call } => {
                let mut s = String::from_str("cugr: no captured slacks for CUGR call ");
                push_nat(&mut s, *call as u64);
                s.append(" \u{2014} not modelled");
                s
            },
            RouteRefusal::SomeNets => String::from_str("cugr: set_nets_to_route (incremental routing) is not modelled"),
        }
    }
}

/// Refuses a run before it is set up: where the database has access points, and then where the slacks are a
/// timer's and none were captured.
pub fn admit_run(has_access_points: bool, is_timed: bool, has_captured: bool) -> (r: Result<(), RouteRefusal>)
    ensures
        r is Ok <==> !has_access_points && !(is_timed && !has_captured),
        r matches Err(e) ==> e == (if has_access_points { RouteRefusal::AccessPoints } else { RouteRefusal::Timed }),
{
    if has_access_points {
        return Err(RouteRefusal::AccessPoints);
    }
    if is_timed && !has_captured {
        return Err(RouteRefusal::Timed);
    }
    Ok(())
}

/// Whether a call's nets are sorted by captured slacks, once the run is set up: where the slacks are a timer's and
/// some nets are critical. Refused where there are none for the call. `calls` is how many were captured.
pub fn sorts_by_capture(is_timed: bool, has_critical: bool, calls: Option<usize>, call: usize) -> (r: Result<bool, RouteRefusal>)
    ensures
        match r {
            Ok(b) => b == (is_timed && has_critical) && (b ==> (calls matches Some(n) && call < n)),
            Err(e) => is_timed && has_critical && !(calls matches Some(n) && call < n) && e == (RouteRefusal::NoCall { call }),
        },
{
    if !(is_timed && has_critical) {
        return Ok(false);
    }
    match calls {
        Some(n) => {
            if call < n {
                return Ok(true);
            }
        },
        None => {},
    }
    Err(RouteRefusal::NoCall { call })
}

// ---- after a change ----

/// A net that a change has touched.
#[derive(Debug)]
pub struct DirtyNet {
    pub name: String,
    /// The pins that the global router holds of the net.
    pub pins: Vec<NetPin>,
    /// The pins as they are read now. None where the net is not one that the global router holds, and once they
    /// are taken over.
    pub fresh: Option<Vec<NetPin>>,
    /// Whether this router holds the net.
    pub is_held: bool,
    /// Whether the net is still in the block, and still one that is routed.
    pub is_in_block: bool,
    pub is_routable: bool,
}

/// A change that cannot be followed, or a net that cannot be routed anew.
#[derive(Debug)]
pub enum DirtyError {
    /// The slacks of a clocked design with a liberty file are the timer's.
    Clocked,
    NotKnown { net: String },
    NotHeld { net: String },
    NotInBlock,
    NotRoutable { net: String },
}

impl DirtyError {
    /// What is told of the error.
    pub open spec fn text(&self) -> Seq<char> {
        match *self {
            DirtyError::Clocked => "cugr: an incremental route of a clocked liberty design reads the timer's slacks \u{2014} not modelled"@,
            DirtyError::NotKnown { net } => "cugr: dirty net "@ + net@ + " is not one the global router holds \u{2014} not modelled"@,
            DirtyError::NotHeld { net } => "cugr: rerouting net "@ + net@ + ", which CUGR does not hold, is not modelled"@,
            DirtyError::NotInBlock => "a dirty net missing from the database"@,
            DirtyError::NotRoutable { net } => "cugr: net "@ + net@ + " is no longer routable \u{2014} not modelled"@,
        }
    }

    /// What is told of the error.
    pub fn message(&self) -> (s: String)
        ensures
            s@ == self.text(),
    {
        match self {
            DirtyError::Clocked => String::from_str("cugr: an incremental route of a clocked liberty design reads the timer's slacks \u{2014} not modelled"),
            DirtyError::NotKnown { net } => {
                let mut s = String::from_str("cugr: dirty net ");
                s.append(net.as_str());
                s.append(" is not one the global router holds \u{2014} not modelled");
                s
            },
            DirtyError::NotHeld { net } => {
                let mut s = String::from_str("cugr: rerouting net ");
                s.append(net.as_str());
                s.append(", which CUGR does not hold, is not modelled");
                s
            },
            DirtyError::NotInBlock => String::from_str("a dirty net missing from the database"),
            DirtyError::NotRoutable { net } => {
                let mut s = String::from_str("cugr: net ");
                s.append(net.as_str());
                s.append(" is no longer routable \u{2014} not modelled");
                s
            },
        }
    }
}

/// Whether a net has a route that is not empty.
pub open spec fn has_route(routes: Map<Seq<char>, Seq<GSegment>>, n: DirtyNet) -> bool {
    route_of(routes, n.name@).len() > 0
}

/// Whether the pins of a net have moved.
pub open spec fn has_moved(n: DirtyNet) -> bool {
    pin_places(n.pins@) != pin_places(n.fresh->0@)
}

/// Whether a net is routed anew: it has no route, or its pins have moved.
pub open spec fn is_rerouted(routes: Map<Seq<char>, Seq<GSegment>>, n: DirtyNet) -> bool {
    !has_route(routes, n) || has_moved(n)
}

/// Whether an error says what is wrong with a net.
pub open spec fn is_trouble_of(e: DirtyError, routes: Map<Seq<char>, Seq<GSegment>>, n: DirtyNet) -> bool {
    match e {
        DirtyError::Clocked => false,
        DirtyError::NotKnown { net } => n.fresh is None && net@ == n.name@,
        DirtyError::NotHeld { net } => n.fresh is Some && is_rerouted(routes, n) && !n.is_held && net@ == n.name@,
        DirtyError::NotInBlock => n.fresh is Some && is_rerouted(routes, n) && n.is_held && !n.is_in_block,
        DirtyError::NotRoutable { net } => n.fresh is Some && is_rerouted(routes, n) && n.is_held && n.is_in_block && !n.is_routable && net@ == n.name@,
    }
}

/// Whether a net can be followed: the global router holds it, and it keeps its route or can be routed anew.
pub open spec fn is_followed(routes: Map<Seq<char>, Seq<GSegment>>, n: DirtyNet) -> bool {
    n.fresh is Some && (is_rerouted(routes, n) ==> n.is_held && n.is_in_block && n.is_routable)
}

/// Whether a net is what it was with the pins read now in place of those held.
pub open spec fn has_fresh_pins(a: DirtyNet, b: DirtyNet) -> bool {
    &&& b.fresh is None
    &&& a.fresh is Some
    &&& b.pins@ == a.fresh->0@
    &&& b == (DirtyNet { pins: b.pins, fresh: b.fresh, ..a })
}

/// Whether the first `n` nets have their pins replaced and the others are as they were.
pub open spec fn pins_replaced(a: Seq<DirtyNet>, b: Seq<DirtyNet>, n: int) -> bool {
    &&& b.len() == a.len()
    &&& forall|k: int| 0 <= k < n ==> has_fresh_pins(a[k], #[trigger] b[k])
    &&& forall|k: int| n <= k < a.len() ==> #[trigger] b[k] == a[k]
}

/// The records of the first `n` nets.
pub open spec fn dirty_records(routes: Map<Seq<char>, Seq<GSegment>>, nets: Seq<DirtyNet>, n: int) -> Seq<Seq<char>>
    decreases n,
{
    if n <= 0 {
        Seq::empty()
    } else {
        let d = nets[n - 1];
        dirty_records(routes, nets, n - 1).push(dirty_text(d.name@, has_route(routes, d), has_moved(d), is_rerouted(routes, d)))
    }
}

/// Whether the `k`-th net is the first that cannot be followed, for the reason given. It is recorded, and its pins
/// are replaced, unless the global router does not hold it.
pub open spec fn is_stopped_at(routes: Map<Seq<char>, Seq<GSegment>>, a: Seq<DirtyNet>, b: Seq<DirtyNet>, records: Seq<Seq<char>>, e: DirtyError, k: int) -> bool {
    let done = if a[k].fresh is Some { k + 1 } else { k };
    &&& 0 <= k < a.len()
    &&& forall|j: int| 0 <= j < k ==> is_followed(routes, #[trigger] a[j])
    &&& is_trouble_of(e, routes, a[k])
    &&& pins_replaced(a, b, done)
    &&& records == dirty_records(routes, a, done)
}

/// Follows a change, net by net: the pins that are read now replace those held, and the net is routed anew where it
/// has no route, or where its pins, by place and layer and repeats counted, differ from those held before. Gives
/// which nets are.
///
/// Refused of a clocked design with a liberty file, and at the first net that cannot be followed. Every net that
/// the global router holds leaves a record, that one too.
#[verifier::rlimit(40)]
pub fn update_dirty_routes_cugr(has_liberty: bool, has_clocks: bool, nets: &mut Vec<DirtyNet>, routes: &Routes, trace: &mut Vec<String>) -> (r: Result<Vec<bool>, DirtyError>)
    requires
        routes.wf(),
        forall|i: int, j: int| 0 <= i < j < old(nets)@.len() ==> (#[trigger] old(nets)@[i]).name@ != (#[trigger] old(nets)@[j]).name@,
    ensures
        match r {
            Err(DirtyError::Clocked) => has_liberty && has_clocks && final(nets)@ == old(nets)@ && final(trace)@ == old(trace)@,
            Err(e) => {
                &&& !(has_liberty && has_clocks)
                &&& exists|k: int, records: Seq<Seq<char>>|
                    #[trigger] is_stopped_at(routes@, old(nets)@, final(nets)@, records, e, k) && texts(final(trace)@) == texts(old(trace)@) + records
            },
            Ok(anew) => {
                &&& !(has_liberty && has_clocks)
                &&& forall|k: int| 0 <= k < old(nets)@.len() ==> is_followed(routes@, #[trigger] old(nets)@[k])
                &&& pins_replaced(old(nets)@, final(nets)@, old(nets)@.len() as int)
                &&& texts(final(trace)@) == texts(old(trace)@) + dirty_records(routes@, old(nets)@, old(nets)@.len() as int)
                &&& anew@ == Seq::new(old(nets)@.len(), |k: int| is_rerouted(routes@, old(nets)@[k]))
            },
        },
{
    if has_liberty && has_clocks {
        return Err(DirtyError::Clocked);
    }
    let ghost a = nets@;
    let ghost m = routes@;
    let ghost trace0 = texts(trace@);
    let mut anew: Vec<bool> = Vec::new();
    let mut k: usize = 0;
    assert(texts(trace@) =~= trace0 + dirty_records(m, a, 0));
    while k < nets.len()
        invariant
            !(has_liberty && has_clocks),
            routes.wf(),
            a == old(nets)@,
            m == routes@,
            trace0 == texts(old(trace)@),
            k <= nets@.len(),
            pins_replaced(a, nets@, k as int),
            forall|j: int| 0 <= j < k ==> is_followed(m, #[trigger] a[j]),
            texts(trace@) == trace0 + dirty_records(m, a, k as int),
            anew@.len() == k,
            forall|j: int| 0 <= j < k ==> #[trigger] anew@[j] == is_rerouted(m, a[j]),
        decreases nets@.len() - k,
    {
        let ghost before = nets@;
        assert(nets@[k as int] == a[k as int]);
        let name = String::from_str(nets[k].name.as_str());
        let fresh = match nets[k].fresh.take() {
            Some(f) => f,
            None => {
                let e = DirtyError::NotKnown { net: name };
                proof {
                    assert(nets@ =~= before);
                    assert(is_stopped_at(m, a, nets@, dirty_records(m, a, k as int), e, k as int));
                }
                return Err(e);
            },
        };
        let routed = match routes.find(name.as_str()) {
            Some(at) => routes.0[at].1.len() > 0,
            None => false,
        };
        assert(routed == has_route(m, a[k as int]));
        let moved = pins_moved(nets[k].pins.as_slice(), fresh.as_slice());
        let reroute = !routed || moved;
        let record = dirty_record(name.as_str(), routed, moved, reroute);
        push_text(trace, record);
        nets[k].pins = fresh;
        proof {
            assert(texts(trace@) =~= trace0 + dirty_records(m, a, k + 1));
            assert(has_fresh_pins(a[k as int], nets@[k as int]));
            assert forall|j: int| 0 <= j < k + 1 implies has_fresh_pins(a[j], #[trigger] nets@[j]) by {
                if j < k {
                    assert(nets@[j] == before[j]);
                }
            }
            assert forall|j: int| k + 1 <= j < a.len() implies #[trigger] nets@[j] == a[j] by {
                assert(nets@[j] == before[j]);
            }
            assert(pins_replaced(a, nets@, k + 1));
        }
        if reroute && !(nets[k].is_held && nets[k].is_in_block && nets[k].is_routable) {
            let e = if !nets[k].is_held {
                DirtyError::NotHeld { net: name }
            } else if !nets[k].is_in_block {
                DirtyError::NotInBlock
            } else {
                DirtyError::NotRoutable { net: name }
            };
            assert(is_stopped_at(m, a, nets@, dirty_records(m, a, k + 1), e, k as int));
            return Err(e);
        }
        assert(is_followed(m, a[k as int]));
        anew.push(reroute);
        k += 1;
    }
    assert(anew@ =~= Seq::new(a.len(), |k: int| is_rerouted(m, a[k])));
    Ok(anew)
}

/// Where a router reaches a pin: the layer, where it does, and the place on the grid.
#[derive(Debug, Clone, Copy)]
pub struct PinAccess {
    pub layer: Option<i32>,
    pub on_grid: (i32, i32),
}

/// Whether a pin is moved to where it is reached.
pub open spec fn is_moved_to(a: NetPin, b: NetPin, at: PinAccess, max_routing_layer: int) -> bool {
    &&& b.name == a.name
    &&& b.is_port == a.is_port
    &&& match at.layer {
        Some(z) => b.on_grid == at.on_grid && b.connection_layer == (if a.connection_layer <= max_routing_layer { z } else { a.connection_layer }),
        None => b == a,
    }
}

/// A net's pins by place and layer.
pub open spec fn grid_pins(pins: Seq<NetPin>) -> Seq<GridPin> {
    pins.map_values(|p: NetPin| (p.on_grid.0, p.on_grid.1, p.connection_layer))
}

/// Takes the route that a net was given anew: it replaces the old one, which is removed where the new one is empty.
/// The pins move to where they are reached. Gives the net for the guides that remain.
pub fn replace_route(net: &mut DirtyNet, route: Vec<GSegment>, access: &Vec<PinAccess>, made: bool, max_routing_layer: i32, routes: &mut Routes) -> (n: RemainingNet)
    requires
        old(routes).wf(),
        access@.len() == old(net).pins@.len(),
    ensures
        final(routes).wf(),
        final(routes)@ == (if route@.len() == 0 { old(routes)@.remove(old(net).name@) } else { old(routes)@.insert(old(net).name@, route@) }),
        *final(net) == (DirtyNet { pins: final(net).pins, ..*old(net) }),
        final(net).pins@.len() == old(net).pins@.len(),
        forall|k: int| 0 <= k < access@.len() ==> is_moved_to(old(net).pins@[k], #[trigger] final(net).pins@[k], access@[k], max_routing_layer as int),
        n.name@ == old(net).name@,
        n.made == made,
        n.pins@ == grid_pins(final(net).pins@),
{
    if route.len() == 0 {
        routes.remove(net.name.as_str());
    } else {
        routes.insert(net.name.as_str(), route);
    }
    let ghost pins0 = net.pins@;
    let mut grid: Vec<GridPin> = Vec::new();
    let mut k: usize = 0;
    while k < net.pins.len()
        invariant
            pins0 == old(net).pins@,
            *net == (DirtyNet { pins: net.pins, ..*old(net) }),
            net.pins@.len() == pins0.len() == access@.len(),
            k <= pins0.len(),
            forall|j: int| 0 <= j < k ==> is_moved_to(pins0[j], #[trigger] net.pins@[j], access@[j], max_routing_layer as int),
            forall|j: int| k <= j < pins0.len() ==> #[trigger] net.pins@[j] == pins0[j],
            grid@.len() == k,
            forall|j: int| 0 <= j < k ==> #[trigger] grid@[j] == (net.pins@[j].on_grid.0, net.pins@[j].on_grid.1, net.pins@[j].connection_layer),
        decreases pins0.len() - k,
    {
        let at = access[k];
        update_pin_access_point(&mut net.pins[k], at.layer, at.on_grid, max_routing_layer);
        grid.push((net.pins[k].on_grid.0, net.pins[k].on_grid.1, net.pins[k].connection_layer));
        k += 1;
    }
    assert(grid@ =~= grid_pins(net.pins@));
    RemainingNet { name: String::from_str(net.name.as_str()), made, pins: grid }
}

/// What is written of the nets that a change has touched: those whose guides are cleared, by place, and the routes
/// that are saved.
#[derive(Debug)]
pub struct DirtySaves {
    pub cleared: Vec<usize>,
    pub saved: Vec<NetRoute>,
}

/// Those of the first `n` nets that have a route, be it an empty one.
pub open spec fn saved_places(routes: Map<Seq<char>, Seq<GSegment>>, nets: Seq<DirtyNet>, n: int) -> Seq<int>
    decreases n,
{
    if n <= 0 {
        Seq::empty()
    } else {
        let s = saved_places(routes, nets, n - 1);
        if routes.dom().contains(nets[n - 1].name@) { s.push(n - 1) } else { s }
    }
}

/// Those of the first `n` nets that were routed anew and have no route.
pub open spec fn cleared_places(routes: Map<Seq<char>, Seq<GSegment>>, nets: Seq<DirtyNet>, anew: Seq<bool>, n: int) -> Seq<usize>
    decreases n,
{
    if n <= 0 {
        Seq::empty()
    } else {
        let s = cleared_places(routes, nets, anew, n - 1);
        if !routes.dom().contains(nets[n - 1].name@) && anew[n - 1] { s.push((n - 1) as usize) } else { s }
    }
}

/// Whether a kept route is that of a net.
pub open spec fn is_route_of(r: NetRoute, n: DirtyNet, routes: Map<Seq<char>, Seq<GSegment>>) -> bool {
    &&& r.name@ == n.name@
    &&& r.segments@ == route_of(routes, n.name@)
    &&& r.pins@ == grid_pins(n.pins@)
    &&& r.is_local == on_one_cell(r.pins@)
}

/// The place of the first kept route of a net, from the `k`-th on.
pub open spec fn kept_at(kept: Seq<NetRoute>, name: Seq<char>, k: int) -> Option<int>
    decreases kept.len() - k,
{
    if k >= kept.len() {
        None
    } else if kept[k].name@ == name {
        Some(k)
    } else {
        kept_at(kept, name, k + 1)
    }
}

/// Whether a place holds the first kept route of one of the first `n` nets.
pub open spec fn is_renewed(kept: Seq<NetRoute>, nets: Seq<DirtyNet>, i: int, n: int) -> bool {
    exists|k: int| 0 <= k < n && kept_at(kept, (#[trigger] nets[k]).name@, 0) == Some(i)
}

/// Whether the first kept route of each of the first `n` nets is renewed, and every other is as it was.
pub open spec fn are_renewed(a: Seq<NetRoute>, b: Seq<NetRoute>, nets: Seq<DirtyNet>, routes: Map<Seq<char>, Seq<GSegment>>, n: int) -> bool {
    &&& b.len() == a.len()
    &&& forall|i: int| 0 <= i < a.len() ==> (#[trigger] b[i]).name@ == a[i].name@
    &&& forall|i: int| 0 <= i < a.len() && !is_renewed(a, nets, i, n) ==> #[trigger] b[i] == a[i]
    &&& forall|k: int| 0 <= k < n ==> (kept_at(a, (#[trigger] nets[k]).name@, 0) matches Some(i) ==> is_route_of(b[i], nets[k], routes))
}

fn route_for(n: &DirtyNet, routes: &Routes) -> (r: NetRoute)
    requires
        routes.wf(),
    ensures
        is_route_of(r, *n, routes@),
{
    let segments: Vec<GSegment> = match routes.find(n.name.as_str()) {
        Some(at) => copy_vec(&routes.0[at].1),
        None => Vec::new(),
    };
    assert(segments@ =~= route_of(routes@, n.name@));
    let mut pins: Vec<GridPin> = Vec::new();
    let mut k: usize = 0;
    while k < n.pins.len()
        invariant
            k <= n.pins@.len(),
            pins@ == grid_pins(n.pins@).take(k as int),
        decreases n.pins@.len() - k,
    {
        pins.push((n.pins[k].on_grid.0, n.pins[k].on_grid.1, n.pins[k].connection_layer));
        k += 1;
        assert(pins@ =~= grid_pins(n.pins@).take(k as int));
    }
    assert(pins@ =~= grid_pins(n.pins@));
    let is_local = is_on_one_cell(&pins);
    NetRoute { name: String::from_str(n.name.as_str()), segments, pins, is_local }
}

proof fn lemma_kept_at(a: Seq<NetRoute>, b: Seq<NetRoute>, name: Seq<char>, k: int)
    requires
        0 <= k <= a.len(),
        b.len() == a.len(),
        forall|i: int| 0 <= i < a.len() ==> (#[trigger] b[i]).name@ == a[i].name@,
    ensures
        kept_at(b, name, k) == kept_at(a, name, k),
        kept_at(a, name, k) matches Some(i) ==> k <= i < a.len() && a[i].name@ == name,
    decreases a.len() - k,
{
    if k < a.len() {
        assert(b[k].name@ == a[k].name@);
        lemma_kept_at(a, b, name, k + 1);
    }
}

/// Renews the routes that are kept, and says what is written of the nets that a change has touched: every net with
/// a route is saved, and one that was routed anew without success is cleared.
pub fn save_dirty_routes(nets: &Vec<DirtyNet>, anew: &Vec<bool>, routes: &Routes, kept: &mut Vec<NetRoute>) -> (r: DirtySaves)
    requires
        routes.wf(),
        anew@.len() == nets@.len(),
        forall|i: int, j: int| 0 <= i < j < nets@.len() ==> (#[trigger] nets@[i]).name@ != (#[trigger] nets@[j]).name@,
    ensures
        r.cleared@ == cleared_places(routes@, nets@, anew@, nets@.len() as int),
        r.saved@.len() == saved_places(routes@, nets@, nets@.len() as int).len(),
        forall|j: int| 0 <= j < r.saved@.len() ==> is_route_of(#[trigger] r.saved@[j], nets@[saved_places(routes@, nets@, nets@.len() as int)[j]], routes@),
        are_renewed(old(kept)@, final(kept)@, nets@, routes@, nets@.len() as int),
{
    let ghost a = kept@;
    let ghost m = routes@;
    let mut cleared: Vec<usize> = Vec::new();
    let mut saved: Vec<NetRoute> = Vec::new();
    let mut k: usize = 0;
    while k < nets.len()
        invariant
            routes.wf(),
            m == routes@,
            a == old(kept)@,
            anew@.len() == nets@.len(),
            forall|i: int, j: int| 0 <= i < j < nets@.len() ==> (#[trigger] nets@[i]).name@ != (#[trigger] nets@[j]).name@,
            k <= nets@.len(),
            cleared@ == cleared_places(m, nets@, anew@, k as int),
            saved@.len() == saved_places(m, nets@, k as int).len(),
            forall|j: int| 0 <= j < saved@.len() ==> is_route_of(#[trigger] saved@[j], nets@[saved_places(m, nets@, k as int)[j]], m),
            are_renewed(a, kept@, nets@, m, k as int),
        decreases nets@.len() - k,
    {
        let n = &nets[k];
        let ghost b = kept@;
        let mut at: usize = 0;
        proof {
            lemma_kept_at(a, b, n.name@, 0);
        }
        while at < kept.len() && !same_text(kept[at].name.as_str(), n.name.as_str())
            invariant
                kept@ == b,
                at <= b.len(),
                kept_at(b, n.name@, at as int) == kept_at(b, n.name@, 0),
            decreases b.len() - at,
        {
            at += 1;
        }
        if at < kept.len() {
            assert(kept_at(b, n.name@, 0) == Some(at as int));
            kept.set(at, route_for(n, routes));
        }
        proof {
            let c = kept@;
            assert forall|i: int| 0 <= i < a.len() implies (#[trigger] c[i]).name@ == a[i].name@ by {
                if i != at {
                    assert(c[i] == b[i]);
                }
            }
            assert forall|i: int| 0 <= i < a.len() && !is_renewed(a, nets@, i, k + 1) implies #[trigger] c[i] == a[i] by {
                if i == at {
                    assert(kept_at(a, nets@[k as int].name@, 0) == Some(i));
                    assert(is_renewed(a, nets@, i, k + 1));
                }
                if is_renewed(a, nets@, i, k as int) {
                    let j = choose|j: int| 0 <= j < k && kept_at(a, (#[trigger] nets@[j]).name@, 0) == Some(i);
                    assert(kept_at(a, nets@[j].name@, 0) == Some(i));
                    assert(is_renewed(a, nets@, i, k + 1));
                }
                assert(b[i] == a[i]);
            }
            assert forall|j: int| 0 <= j < k + 1 implies (kept_at(a, (#[trigger] nets@[j]).name@, 0) matches Some(i) ==> is_route_of(c[i], nets@[j], m)) by {
                lemma_kept_at(a, b, nets@[j].name@, 0);
                if let Some(i) = kept_at(a, nets@[j].name@, 0) {
                    if j < k {
                        assert(nets@[j].name@ != nets@[k as int].name@);
                        assert(is_route_of(b[i], nets@[j], m));
                        if i == at && at < b.len() {
                            assert(b[i].name@ == a[i].name@);
                        }
                        assert(c[i] == b[i]);
                    }
                }
            }
            assert(are_renewed(a, c, nets@, m, k + 1));
        }
        match routes.find(n.name.as_str()) {
            Some(_) => {
                saved.push(route_for(n, routes));
            },
            None => {
                if anew[k] {
                    cleared.push(k);
                }
            },
        }
        k += 1;
    }
    DirtySaves { cleared, saved }
}

// ---- from a database ----

/// A net of the block whose route may be taken over.
#[derive(Debug)]
pub struct LoadedNet {
    pub name: String,
    /// Whether the global router knows the net.
    pub is_known: bool,
    /// Whether the net has detailed wires.
    pub is_detailed: bool,
    /// The route of the net's guides, where it has any.
    pub route: Option<Vec<GSegment>>,
}

/// A session that cannot take routes over from a database.
#[derive(Debug)]
pub enum AdoptError {
    /// The database has access points.
    AccessPoints,
    /// The slacks are a timer's.
    Timed,
    /// A net has guides and the global router does not know it.
    Unknown { net: String },
    /// A net has detailed wires.
    Detailed { net: String },
    /// A net has a route and is not held.
    NotHeld { net: String },
    /// A net's deposits cannot be released or made.
    Restoring { net: String, error: StageError },
}

/// What is said of it.
pub open spec fn adopt_error_text(e: AdoptError) -> Seq<char> {
    match e {
        AdoptError::AccessPoints => "cugr: pin access points in the database \u{2014} ensurePinsPositions' access-point branch is not modelled"@,
        AdoptError::Timed => "cugr: a clock with a liberty library \u{2014} the critical-net slacks are not modelled"@,
        AdoptError::Unknown { net } => "[ERROR GRT-0127] net_id for db_net "@ + net@ + " not found \u{2014} not modelled"@,
        AdoptError::Detailed { net } => "cugr: net "@ + net@ + " is detail-routed \u{2014} makeRouteFromWires is not modelled"@,
        AdoptError::NotHeld { net } => "cugr: net "@ + net@ + " has a route but CUGR does not hold it \u{2014} restoreNetRoute's re-admission is not modelled"@,
        AdoptError::Restoring { net, error } => "cugr: restoring net "@ + net@ + ": "@ + stage_error_text(error),
    }
}

impl AdoptError {
    /// What is said of it.
    pub fn message(&self) -> (s: String)
        ensures
            s@ == adopt_error_text(*self),
    {
        match self {
            AdoptError::AccessPoints => String::from_str("cugr: pin access points in the database \u{2014} ensurePinsPositions' access-point branch is not modelled"),
            AdoptError::Timed => String::from_str("cugr: a clock with a liberty library \u{2014} the critical-net slacks are not modelled"),
            AdoptError::Unknown { net } => {
                let mut s = String::from_str("[ERROR GRT-0127] net_id for db_net ");
                s.append(net.as_str());
                s.append(" not found \u{2014} not modelled");
                s
            },
            AdoptError::Detailed { net } => {
                let mut s = String::from_str("cugr: net ");
                s.append(net.as_str());
                s.append(" is detail-routed \u{2014} makeRouteFromWires is not modelled");
                s
            },
            AdoptError::NotHeld { net } => {
                let mut s = String::from_str("cugr: net ");
                s.append(net.as_str());
                s.append(" has a route but CUGR does not hold it \u{2014} restoreNetRoute's re-admission is not modelled");
                s
            },
            AdoptError::Restoring { net, error } => {
                let mut s = String::from_str("cugr: restoring net ");
                s.append(net.as_str());
                s.append(": ");
                let inner = error.message();
                s.append(inner.as_str());
                s
            },
        }
    }
}

/// What became of the route of a net, by the net's place in the block.
#[derive(Debug)]
pub struct Adoption {
    pub net: usize,
    pub outcome: Restore,
}

/// Whether a net has guides and the global router does not know it.
pub open spec fn is_unknown(n: LoadedNet) -> bool {
    n.route is Some && !n.is_known
}

/// Whether a net is the unknown one whose name comes first.
pub open spec fn is_least_unknown(v: Seq<LoadedNet>, k: int) -> bool {
    0 <= k < v.len() && is_unknown(v[k]) && forall|j: int| 0 <= j < v.len() && is_unknown(#[trigger] v[j]) ==> !text_less(v[j].name@, v[k].name@)
}

/// The last of the first `n` nets of a router with a name.
pub open spec fn place_named(nets: Seq<GrNet>, name: Seq<char>, n: int) -> Option<int>
    decreases n,
{
    if n <= 0 {
        None
    } else if nets[n - 1].name@ == name {
        Some(n - 1)
    } else {
        place_named(nets, name, n - 1)
    }
}

/// Where a router holds a net.
pub open spec fn held_at(c: Cugr, name: Seq<char>) -> Option<int> {
    place_named(c.nets@, name, c.nets@.len() as int)
}

/// Taking routes over, net by net: the router and the deposits before each net, and what became of its route.
pub struct Takeover {
    pub routers: Seq<Cugr>,
    pub logs: Seq<Seq<Commit>>,
    pub outcomes: Seq<Option<Restore>>,
}

/// Whether the `i`-th net is dealt with: one without a route is passed over, and the route of any other is taken
/// over where this router holds it.
pub open spec fn is_dealt_with(nets: Seq<LoadedNet>, t: Takeover, i: int) -> bool {
    &&& !nets[i].is_detailed
    &&& match nets[i].route {
        None => t.routers[i + 1] == t.routers[i] && t.logs[i + 1] == t.logs[i] && t.outcomes[i] is None,
        Some(route) => {
            &&& held_at(t.routers[i], nets[i].name@) is Some
            &&& t.outcomes[i] is Some
            &&& is_restored(t.routers[i], t.routers[i + 1], held_at(t.routers[i], nets[i].name@)->0, route@, t.logs[i], t.logs[i + 1], Ok(t.outcomes[i]->0))
        },
    }
}

/// Whether the first `n` nets are dealt with, from a router and its deposits to others.
pub open spec fn dealt_with(nets: Seq<LoadedNet>, t: Takeover, n: int, a: Cugr, from: Seq<Commit>, b: Cugr, to: Seq<Commit>) -> bool {
    &&& t.routers.len() == n + 1 && t.logs.len() == n + 1 && t.outcomes.len() == n
    &&& t.routers[0] == a && t.logs[0] == from
    &&& t.routers[n] == b && t.logs[n] == to
    &&& forall|i: int| 0 <= i < n ==> #[trigger] is_dealt_with(nets, t, i)
}

/// What became of the routes, of the nets that have one, by place.
pub open spec fn outcomes_of(t: Takeover, n: int) -> Seq<(int, Restore)>
    decreases n,
{
    if n <= 0 {
        Seq::empty()
    } else {
        match t.outcomes[n - 1] {
            Some(r) => outcomes_of(t, n - 1).push((n - 1, r)),
            None => outcomes_of(t, n - 1),
        }
    }
}

/// Adoptions as pairs of a place and an outcome.
pub open spec fn as_outcomes(v: Seq<Adoption>) -> Seq<(int, Restore)> {
    v.map_values(|a: Adoption| (a.net as int, a.outcome))
}

/// Whether an error is why the `k`-th net stops the takeover, once those before are dealt with; `mid` and `logs`
/// are what they left.
pub open spec fn stops_at(nets: Seq<LoadedNet>, k: int, mid: Cugr, logs: Seq<Commit>, b: Cugr, to: Seq<Commit>, e: AdoptError) -> bool {
    &&& 0 <= k < nets.len()
    &&& match e {
        AdoptError::Detailed { net } => nets[k].is_detailed && net@ == nets[k].name@ && b == mid && to == logs,
        AdoptError::NotHeld { net } => {
            &&& !nets[k].is_detailed
            &&& nets[k].route is Some
            &&& held_at(mid, nets[k].name@) is None
            &&& net@ == nets[k].name@
            &&& b == mid
            &&& to == logs
        },
        AdoptError::Restoring { net, error } => {
            &&& !nets[k].is_detailed
            &&& nets[k].route is Some
            &&& held_at(mid, nets[k].name@) is Some
            &&& net@ == nets[k].name@
            &&& is_restored(mid, b, held_at(mid, nets[k].name@)->0, nets[k].route->0@, logs, to, Err(error))
        },
        _ => false,
    }
}

/// Whether all nets are dealt with, with those outcomes.
pub open spec fn is_taken_over(nets: Seq<LoadedNet>, a: Cugr, from: Seq<Commit>, b: Cugr, to: Seq<Commit>, out: Seq<(int, Restore)>) -> bool {
    exists|t: Takeover| #[trigger] dealt_with(nets, t, nets.len() as int, a, from, b, to) && out == outcomes_of(t, nets.len() as int)
}

/// Whether some net stops the takeover with an error, once those before are dealt with.
pub open spec fn is_stopped(nets: Seq<LoadedNet>, a: Cugr, from: Seq<Commit>, b: Cugr, to: Seq<Commit>, e: AdoptError) -> bool {
    exists|k: int, t: Takeover, mid: Cugr, logs: Seq<Commit>| #[trigger] dealt_with(nets, t, k, a, from, mid, logs) && #[trigger] stops_at(nets, k, mid, logs, b, to, e)
}

/// Whether every net that has guides is known.
pub open spec fn all_known(nets: Seq<LoadedNet>) -> bool {
    forall|k: int| 0 <= k < nets.len() ==> !is_unknown(#[trigger] nets[k])
}

/// Whether every route of a net that a router holds can be taken over by it.
pub open spec fn can_adopt(c: Cugr, nets: Seq<LoadedNet>) -> bool {
    forall|i: int| 0 <= i < nets.len() ==> ((#[trigger] nets[i]).route matches Some(route) ==> (held_at(c, nets[i].name@) matches Some(k) ==> can_restore(c, k, route@)))
}

fn find_held(c: &Cugr, name: &String) -> (r: Option<usize>)
    ensures
        match r {
            Some(k) => held_at(*c, name@) == Some(k as int) && k < c.nets@.len(),
            None => held_at(*c, name@) is None,
        },
{
    let mut n: usize = c.nets.len();
    while n > 0
        invariant
            n <= c.nets@.len(),
            held_at(*c, name@) == place_named(c.nets@, name@, n as int),
        decreases n,
    {
        if same_text(c.nets[n - 1].name.as_str(), name.as_str()) {
            return Some(n - 1);
        }
        n -= 1;
    }
    None
}

/// The unknown net whose name comes first.
fn find_unknown(nets: &Vec<LoadedNet>) -> (r: Option<usize>)
    ensures
        match r {
            Some(k) => k < nets@.len() && is_least_unknown(nets@, k as int),
            None => all_known(nets@),
        },
{
    let mut worst: Option<usize> = None;
    let mut k: usize = 0;
    while k < nets.len()
        invariant
            k <= nets@.len(),
            match worst {
                None => forall|j: int| 0 <= j < k ==> !is_unknown(#[trigger] nets@[j]),
                Some(w) => w < k && is_unknown(nets@[w as int]) && forall|j: int| 0 <= j < k && is_unknown(#[trigger] nets@[j]) ==> !text_less(nets@[j].name@, nets@[w as int].name@),
            },
        decreases nets@.len() - k,
    {
        if nets[k].route.is_some() && !nets[k].is_known {
            let first = match worst {
                None => true,
                Some(w) => is_text_less(nets[k].name.as_str(), nets[w].name.as_str()),
            };
            if first {
                proof {
                    lemma_text_order(nets@[k as int].name@, nets@[k as int].name@);
                    if let Some(w) = worst {
                        assert forall|j: int| 0 <= j < k && is_unknown(#[trigger] nets@[j]) implies !text_less(nets@[j].name@, nets@[k as int].name@) by {
                            if text_less(nets@[j].name@, nets@[k as int].name@) {
                                lemma_text_less_trans(nets@[j].name@, nets@[k as int].name@, nets@[w as int].name@);
                            }
                        }
                    }
                }
                worst = Some(k);
            }
        }
        k += 1;
    }
    worst
}

/// Names do not change where only one net's route does.
proof fn lemma_same_places(a: Cugr, b: Cugr, k: int, name: Seq<char>, n: int)
    requires
        differs_in_net(a, b, k),
        0 <= n <= a.nets@.len(),
    ensures
        place_named(b.nets@, name, n) == place_named(a.nets@, name, n),
        place_named(a.nets@, name, n) matches Some(i) ==> 0 <= i < n,
    decreases n,
{
    if n > 0 {
        lemma_same_places(a, b, k, name, n - 1);
        assert(b.nets@[n - 1].name == a.nets@[n - 1].name);
    }
}

/// A router that took one route over can still take the others over.
proof fn lemma_still_adopts(a: Cugr, b: Cugr, k: int, nets: Seq<LoadedNet>)
    requires
        can_adopt(a, nets),
        0 <= k < a.nets@.len(),
        differs_in_net(a, b, k),
        b.nets@[k].routing_tree matches Some(t) ==> b.grid.can_commit(t, b.nets@[k].adopted),
    ensures
        can_adopt(b, nets),
{
    assert forall|i: int| 0 <= i < nets.len() implies ((#[trigger] nets[i]).route matches Some(route) ==> (held_at(b, nets[i].name@) matches Some(at) ==> can_restore(b, at, route@))) by {
        lemma_same_places(a, b, k, nets[i].name@, a.nets@.len() as int);
        if let (Some(route), Some(at)) = (nets[i].route, held_at(b, nets[i].name@)) {
            if at != k {
                assert(b.nets@[at] == a.nets@[at]);
            }
            let (now, was) = (b.nets@[at], a.nets@[at]);
            assert(now.pin_access_points == was.pin_access_points);
            assert forall|t: GrTree|
                is_route_tree(b.grid, route@, Some(#[trigger] tnodes(t.nodes@))) && can_walk(t.nodes@) && binds_pins(b.grid, tnodes(t.nodes@), now)
                implies b.grid.can_commit(t, true) by {
                assert(binds_pins(a.grid, tnodes(t.nodes@), was)) by {
                    assert forall|i: int| 0 <= i < was.pin_access_points@.len() implies #[trigger] pin_hit(a.grid, tnodes(t.nodes@), was, i) is Some by {
                        assert(pin_hit(b.grid, tnodes(t.nodes@), now, i) is Some);
                    }
                }
            }
        }
    }
}

/// Takes the routes of a database over, net by net in the block's order: a net without a route is passed over,
/// and a route that does not fit its net is told with the outcomes.
///
/// Refused where the database has access points or the slacks are a timer's; then where a net with guides is not
/// known, at the first by name; then at the first net, in the block's order, that has detailed wires, or a route
/// but is not held, or deposits that cannot be released or made. What came before it stays taken over.
#[verifier::rlimit(60)]
pub fn restore_cugr_for_repair(
    has_access_points: bool, is_timed: bool, nets: &Vec<LoadedNet>, cugr: &mut Cugr, commits: &mut Vec<Commit>,
) -> (r: Result<Vec<Adoption>, AdoptError>)
    requires
        can_adopt(*old(cugr), nets@),
    ensures
        ({
            let (from, to) = (old(commits)@, final(commits)@);
            match r {
                Ok(v) => !has_access_points && !is_timed && all_known(nets@) && is_taken_over(nets@, *old(cugr), from, *final(cugr), to, as_outcomes(v@)),
                Err(AdoptError::AccessPoints) => has_access_points && *final(cugr) == *old(cugr) && to == from,
                Err(AdoptError::Timed) => !has_access_points && is_timed && *final(cugr) == *old(cugr) && to == from,
                Err(AdoptError::Unknown { net }) => !has_access_points && !is_timed && *final(cugr) == *old(cugr) && to == from && exists|k: int| #[trigger]
                    is_least_unknown(nets@, k) && net@ == nets@[k].name@,
                Err(e) => !has_access_points && !is_timed && all_known(nets@) && is_stopped(nets@, *old(cugr), from, *final(cugr), to, e),
            }
        }),
{
    if has_access_points {
        return Err(AdoptError::AccessPoints);
    }
    if is_timed {
        return Err(AdoptError::Timed);
    }
    match find_unknown(nets) {
        Some(w) => {
            return Err(AdoptError::Unknown { net: String::from_str(nets[w].name.as_str()) });
        },
        None => {},
    }
    let ghost a = *cugr;
    let ghost from = commits@;
    let ghost mut t = Takeover { routers: seq![a], logs: seq![from], outcomes: Seq::empty() };
    let mut out: Vec<Adoption> = Vec::new();
    let mut k: usize = 0;
    assert(as_outcomes(out@) =~= outcomes_of(t, 0));
    while k < nets.len()
        invariant
            !has_access_points,
            !is_timed,
            all_known(nets@),
            a == *old(cugr),
            from == old(commits)@,
            k <= nets@.len(),
            can_adopt(*cugr, nets@),
            dealt_with(nets@, t, k as int, a, from, *cugr, commits@),
            as_outcomes(out@) == outcomes_of(t, k as int),
        decreases nets@.len() - k,
    {
        let n = &nets[k];
        let ghost mid = *cugr;
        let ghost logs = commits@;
        let ghost t0 = t;
        if n.is_detailed {
            let e = AdoptError::Detailed { net: String::from_str(n.name.as_str()) };
            proof {
                assert(dealt_with(nets@, t0, k as int, a, from, mid, logs));
                assert(stops_at(nets@, k as int, mid, logs, *cugr, logs, e));
                assert(is_stopped(nets@, a, from, *cugr, logs, e));
            }
            return Err(e);
        }
        match &n.route {
            Some(route) => {
                let at: usize = match find_held(cugr, &n.name) {
                    Some(at) => at,
                    None => {
                        let e = AdoptError::NotHeld { net: String::from_str(n.name.as_str()) };
                        proof {
                            assert(dealt_with(nets@, t0, k as int, a, from, mid, logs));
                            assert(stops_at(nets@, k as int, mid, logs, *cugr, logs, e));
                            assert(is_stopped(nets@, a, from, *cugr, logs, e));
                        }
                        return Err(e);
                    },
                };
                assert(nets@[k as int].route is Some);
                let res = cugr.restore_net_route(at, route, commits);
                let ghost now = commits@;
                match res {
                    Ok(outcome) => {
                        proof {
                            lemma_still_adopts(mid, *cugr, at as int, nets@);
                            t = Takeover { routers: t0.routers.push(*cugr), logs: t0.logs.push(now), outcomes: t0.outcomes.push(Some(outcome)) };
                            lemma_goes_on(nets@, t0, t, k as int);
                            assert(is_dealt_with(nets@, t, k as int));
                        }
                        let ghost out0 = out@;
                        out.push(Adoption { net: k, outcome });
                        proof {
                            lemma_same_outcomes(t0, t, k as int);
                            assert(as_outcomes(out@) =~= as_outcomes(out0).push((k as int, outcome)));
                        }
                    },
                    Err(error) => {
                        let e = AdoptError::Restoring { net: String::from_str(n.name.as_str()), error };
                        proof {
                            assert(dealt_with(nets@, t0, k as int, a, from, mid, logs));
                            assert(stops_at(nets@, k as int, mid, logs, *cugr, now, e));
                            assert(is_stopped(nets@, a, from, *cugr, now, e));
                        }
                        return Err(e);
                    },
                }
            },
            None => {
                proof {
                    t = Takeover { routers: t0.routers.push(*cugr), logs: t0.logs.push(logs), outcomes: t0.outcomes.push(None) };
                    lemma_goes_on(nets@, t0, t, k as int);
                    assert(is_dealt_with(nets@, t, k as int));
                    lemma_same_outcomes(t0, t, k as int);
                }
            },
        }
        k += 1;
    }
    proof {
        let to = commits@;
        assert(dealt_with(nets@, t, nets@.len() as int, a, from, *cugr, to));
        assert(is_taken_over(nets@, a, from, *cugr, to, as_outcomes(out@)));
    }
    Ok(out)
}

/// Whether a takeover goes on from another by one net.
spec fn goes_on(t: Takeover, u: Takeover, k: int) -> bool {
    &&& t.routers.len() == k + 1 && t.logs.len() == k + 1 && t.outcomes.len() == k
    &&& u.routers.len() == k + 2 && u.logs.len() == k + 2 && u.outcomes.len() == k + 1
    &&& forall|i: int| 0 <= i <= k ==> #[trigger] u.routers[i] == t.routers[i]
    &&& forall|i: int| 0 <= i <= k ==> #[trigger] u.logs[i] == t.logs[i]
    &&& forall|i: int| 0 <= i < k ==> #[trigger] u.outcomes[i] == t.outcomes[i]
}

proof fn lemma_goes_on(nets: Seq<LoadedNet>, t: Takeover, u: Takeover, k: int)
    requires
        k >= 0,
        goes_on(t, u, k),
        forall|i: int| 0 <= i < k ==> #[trigger] is_dealt_with(nets, t, i),
    ensures
        forall|i: int| 0 <= i < k ==> #[trigger] is_dealt_with(nets, u, i),
{
    assert forall|i: int| 0 <= i < k implies #[trigger] is_dealt_with(nets, u, i) by {
        assert(is_dealt_with(nets, t, i));
        assert(u.routers[i + 1] == t.routers[i + 1] && u.logs[i + 1] == t.logs[i + 1]);
    }
}

proof fn lemma_same_outcomes(t: Takeover, u: Takeover, n: int)
    requires
        0 <= n <= t.outcomes.len(),
        n <= u.outcomes.len(),
        forall|i: int| 0 <= i < n ==> #[trigger] u.outcomes[i] == t.outcomes[i],
    ensures
        outcomes_of(u, n) == outcomes_of(t, n),
    decreases n,
{
    if n > 0 {
        lemma_same_outcomes(t, u, n - 1);
        assert(u.outcomes[n - 1] == t.outcomes[n - 1]);
    }
}

// ---- setting up ----

/// A routing layer and whether it has an adjustment of its own.
#[derive(Debug, Clone, Copy, PartialEq, Eq, Structural)]
pub struct AdjustableLayer {
    pub routing_level: i32,
    pub has_adjustment: bool,
}

/// The first layer of a level, from the `k`-th on.
pub open spec fn layer_at(layers: Seq<AdjustableLayer>, level: int, k: int) -> Option<int>
    decreases layers.len() - k,
{
    if k >= layers.len() {
        None
    } else if layers[k].routing_level == level {
        Some(k)
    } else {
        layer_at(layers, level, k + 1)
    }
}

/// The layers of the levels from `min` up to but not including `end` that have no adjustment of their own.
pub open spec fn to_adjust(layers: Seq<AdjustableLayer>, min: int, end: int) -> Seq<usize>
    decreases end - min,
{
    if end <= min {
        Seq::empty()
    } else {
        let s = to_adjust(layers, min, end - 1);
        match layer_at(layers, end - 1, 0) {
            Some(k) => if layers[k].has_adjustment { s } else { s.push(k as usize) },
            None => s,
        }
    }
}

/// The layers that take the global adjustment: those of the routed levels that have none of their own. None
/// where a level has no layer.
pub fn layers_to_adjust(layers: &Vec<AdjustableLayer>, min: i32, max: i32) -> (r: Option<Vec<usize>>)
    ensures
        match r {
            Some(v) => v@ == to_adjust(layers@, min as int, max + 1) && forall|l: int| min <= l <= max ==> #[trigger] layer_at(layers@, l, 0) is Some,
            None => exists|l: int| min <= l <= max && #[trigger] layer_at(layers@, l, 0) is None,
        },
{
    let mut out: Vec<usize> = Vec::new();
    let mut l: i64 = min as i64;
    while l <= max as i64
        invariant
            min <= l,
            l <= max + 1 || l == min,
            out@ == to_adjust(layers@, min as int, l as int),
            forall|m: int| min <= m < l ==> #[trigger] layer_at(layers@, m, 0) is Some,
        decreases max - l + 1,
    {
        let mut k: usize = 0;
        while k < layers.len() && layers[k].routing_level as i64 != l
            invariant
                k <= layers@.len(),
                layer_at(layers@, l as int, k as int) == layer_at(layers@, l as int, 0),
            decreases layers@.len() - k,
        {
            k += 1;
        }
        if k == layers.len() {
            assert(layer_at(layers@, l as int, 0) is None);
            return None;
        }
        assert(layer_at(layers@, l as int, 0) == Some(k as int));
        if !layers[k].has_adjustment {
            out.push(k);
        }
        l += 1;
    }
    Some(out)
}


// ---- guides ----

/// The place of the first net of a name, from the `k`-th on.
pub open spec fn net_place(nets: Seq<RemainingNet>, name: Seq<char>, k: int) -> Option<int>
    decreases nets.len() - k,
{
    if k >= nets.len() {
        None
    } else if nets[k].name@ == name {
        Some(k)
    } else {
        net_place(nets, name, k + 1)
    }
}

/// Those of the first `n` names that are nets of the router.
pub open spec fn places_upto(order: Seq<String>, nets: Seq<RemainingNet>, n: int) -> Seq<int>
    decreases n,
{
    if n <= 0 {
        Seq::empty()
    } else {
        match net_place(nets, order[n - 1]@, 0) {
            Some(k) => places_upto(order, nets, n - 1).push(k),
            None => places_upto(order, nets, n - 1),
        }
    }
}

/// Whether a kept route is that of a net; whether it is local is asked of its pins as they are now.
pub open spec fn is_guide_of(r: NetRoute, n: RemainingNet, routes: Map<Seq<char>, Seq<GSegment>>) -> bool {
    &&& r.name@ == n.name@
    &&& r.segments@ == route_of(routes, n.name@)
    &&& r.pins@ == n.pins@
    &&& r.is_local == on_one_cell(n.pins@)
}

fn is_on_one_cell(pins: &Vec<GridPin>) -> (r: bool)
    ensures
        r == on_one_cell(pins@),
{
    let mut k: usize = 0;
    while k < pins.len()
        invariant
            k <= pins@.len(),
            forall|i: int| 0 <= i < k ==> (#[trigger] pins@[i]).0 == pins@[0].0 && pins@[i].1 == pins@[0].1,
        decreases pins@.len() - k,
    {
        if pins[k].0 != pins[0].0 || pins[k].1 != pins[0].1 {
            assert(pins@[k as int].0 != pins@[0].0 || pins@[k as int].1 != pins@[0].1);
            return false;
        }
        k += 1;
    }
    true
}

/// Guides that are not written.
#[derive(Debug)]
pub enum GuidesError {
    Refused(RouteRefusal),
    /// A net's wire is vias alone.
    ViaOnly { net: String },
    NoRoute(NoRouteGuides),
}

/// What is said of it.
pub open spec fn guides_error_text(e: GuidesError) -> Seq<char> {
    match e {
        GuidesError::Refused(inner) => refusal_text(inner),
        GuidesError::ViaOnly { net } => "net "@ + net@ + ": a via-only wire \u{2014} hasStackedVias' via points are not wired"@,
        GuidesError::NoRoute(inner) => "NoRouteGuides { net: \""@ + inner.net@ + "\" }"@,
    }
}

impl GuidesError {
    /// What is said of it.
    pub fn message(&self) -> (s: String)
        ensures
            s@ == guides_error_text(*self),
    {
        match self {
            GuidesError::Refused(inner) => inner.message(),
            GuidesError::ViaOnly { net } => {
                let mut s = String::from_str("net ");
                s.append(net.as_str());
                s.append(": a via-only wire \u{2014} hasStackedVias' via points are not wired");
                s
            },
            GuidesError::NoRoute(inner) => {
                let mut s = String::from_str("NoRouteGuides { net: \"");
                s.append(inner.net.as_str());
                s.append("\" }");
                s
            },
        }
    }
}

/// What a net's wire is made of.
#[derive(Debug, Clone, Copy, PartialEq, Eq, Structural)]
pub struct WireCount {
    pub has_wire: bool,
    pub wires: i64,
    pub vias: i64,
}

/// Whether a wire is vias alone.
pub open spec fn has_vias_alone(w: WireCount) -> bool {
    w.has_wire && w.wires == 0 && w.vias > 0
}

/// Whether no net's wire is vias alone.
pub open spec fn no_vias_alone(v: Seq<WireCount>) -> bool {
    forall|k: int| 0 <= k < v.len() ==> !has_vias_alone(#[trigger] v[k])
}

/// Whether a net is the first whose wire is vias alone.
pub open spec fn is_first_of_vias(v: Seq<WireCount>, k: int) -> bool {
    0 <= k < v.len() && has_vias_alone(v[k]) && forall|j: int| 0 <= j < k ==> !has_vias_alone(#[trigger] v[j])
}

/// What guides are written from: every net's route completed, in the block's order. The routes are neither
/// merged nor marked congested.
///
/// Refused where only some nets are to be routed, then at the first net whose wire is vias alone, and then at the
/// first that is left without a route.
pub fn cugr_guides(
    some_nets: bool, wires: &Vec<WireCount>, routes: &mut Routes, nets: &Vec<RemainingNet>, order: &Vec<String>, min_routing_layer: i32, max_routing_layer: i32, block_max: i32,
) -> (r: Result<Vec<NetRoute>, GuidesError>)
    requires
        old(routes).wf(),
        wires@.len() == nets@.len(),
        forall|i: int| 0 <= i < nets@.len() ==> local_guides_fit(
            completed_upto(old(routes)@, nets@, (GuideLayers { min: min_routing_layer as int, max: max_routing_layer as int, block_max: block_max as int }), i),
            #[trigger] nets@[i], min_routing_layer as int, max_routing_layer as int),
    ensures
        final(routes).wf(),
        ({
            let g = GuideLayers { min: min_routing_layer as int, max: max_routing_layer as int, block_max: block_max as int };
            let m = old(routes)@;
            let ids = places_upto(order@, nets@, order@.len() as int);
            match r {
                Ok(out) => {
                    &&& !some_nets
                    &&& no_vias_alone(wires@)
                    &&& forall|i: int| 0 <= i < nets@.len() ==> !guideless(completed_upto(m, nets@, g, i), #[trigger] nets@[i])
                    &&& final(routes)@ == completed_upto(m, nets@, g, nets@.len() as int)
                    &&& out@.len() == ids.len()
                    &&& forall|k: int| 0 <= k < ids.len() ==> is_guide_of(#[trigger] out@[k], nets@[ids[k]], final(routes)@)
                },
                Err(GuidesError::Refused(e)) => some_nets && e == RouteRefusal::SomeNets && final(routes)@ == m,
                Err(GuidesError::ViaOnly { net }) => !some_nets && final(routes)@ == m && exists|k: int| #[trigger] is_first_of_vias(wires@, k) && net@ == nets@[k].name@,
                Err(GuidesError::NoRoute(e)) => !some_nets && no_vias_alone(wires@) && exists|k: int| {
                    &&& 0 <= k < nets@.len()
                    &&& guideless(completed_upto(m, nets@, g, k), #[trigger] nets@[k])
                    &&& forall|i: int| 0 <= i < k ==> !guideless(completed_upto(m, nets@, g, i), #[trigger] nets@[i])
                    &&& e.net@ == nets@[k].name@
                    &&& final(routes)@ == completed_upto(m, nets@, g, k).insert(nets@[k].name@, Seq::empty())
                },
            }
        }),
{
    if some_nets {
        return Err(GuidesError::Refused(RouteRefusal::SomeNets));
    }
    let mut w: usize = 0;
    while w < wires.len()
        invariant
            !some_nets,
            wires@.len() == nets@.len(),
            routes.wf(),
            routes@ == old(routes)@,
            w <= wires@.len(),
            forall|j: int| 0 <= j < w ==> !has_vias_alone(#[trigger] wires@[j]),
        decreases wires@.len() - w,
    {
        if wires[w].has_wire && wires[w].wires == 0 && wires[w].vias > 0 {
            assert(is_first_of_vias(wires@, w as int));
            return Err(GuidesError::ViaOnly { net: String::from_str(nets[w].name.as_str()) });
        }
        w += 1;
    }
    match add_remaining_guides(routes, nets.as_slice(), min_routing_layer, max_routing_layer, block_max) {
        Ok(()) => {},
        Err(e) => {
            return Err(GuidesError::NoRoute(e));
        },
    }
    let ghost all = routes@;
    let mut out: Vec<NetRoute> = Vec::new();
    let mut k: usize = 0;
    while k < order.len()
        invariant
            k <= order@.len(),
            routes.wf(),
            routes@ == all,
            out@.len() == places_upto(order@, nets@, k as int).len(),
            forall|j: int| 0 <= j < out@.len() ==> is_guide_of(#[trigger] out@[j], nets@[places_upto(order@, nets@, k as int)[j]], all),
        decreases order@.len() - k,
    {
        let mut i: usize = 0;
        while i < nets.len() && !same_text(nets[i].name.as_str(), order[k].as_str())
            invariant
                k < order@.len(),
                i <= nets@.len(),
                net_place(nets@, order@[k as int]@, i as int) == net_place(nets@, order@[k as int]@, 0),
            decreases nets@.len() - i,
        {
            i += 1;
        }
        if i < nets.len() {
            let n = &nets[i];
            let segments: Vec<GSegment> = match routes.find(n.name.as_str()) {
                Some(at) => copy_vec(&routes.0[at].1),
                None => Vec::new(),
            };
            assert(segments@ =~= route_of(all, n.name@));
            out.push(NetRoute { name: String::from_str(n.name.as_str()), segments, pins: copy_vec(&n.pins), is_local: is_on_one_cell(&n.pins) });
        }
        k += 1;
    }
    Ok(out)
}

/// Every dirty net leaves a record, in order: whether it has a route, whether its pins moved, and
/// that it is routed anew where it has none or they did.
pub proof fn every_dirty_net_leaves_a_record(routes: Map<Seq<char>, Seq<GSegment>>, nets: Seq<DirtyNet>, n: int)
    requires
        0 <= n,
    ensures
        dirty_records(routes, nets, n) == all_of(
            n,
            |k: int| seq![dirty_text(nets[k].name@, has_route(routes, nets[k]), has_moved(nets[k]), !has_route(routes, nets[k]) || has_moved(nets[k]))],
        ),
    decreases n,
{
    let f = |k: int| seq![dirty_text(nets[k].name@, has_route(routes, nets[k]), has_moved(nets[k]), !has_route(routes, nets[k]) || has_moved(nets[k]))];
    if n > 0 {
        every_dirty_net_leaves_a_record(routes, nets, n - 1);
        lemma_all_next(n - 1, f);
    } else {
        lemma_all_none(f);
    }
    assert(dirty_records(routes, nets, n) =~= all_of(n, f));
}

/// The dirty nets whose routes are saved are those that the routes name, in order.
pub proof fn the_nets_saved_are_those_with_a_route(routes: Map<Seq<char>, Seq<GSegment>>, nets: Seq<DirtyNet>, n: int)
    requires
        0 <= n,
    ensures
        saved_places(routes, nets, n) == all_of(
            n,
            |k: int| if routes.dom().contains(nets[k].name@) { seq![k] } else { Seq::empty() },
        ),
    decreases n,
{
    let f = |k: int| if routes.dom().contains(nets[k].name@) { seq![k] } else { Seq::empty() };
    if n > 0 {
        the_nets_saved_are_those_with_a_route(routes, nets, n - 1);
        lemma_all_next(n - 1, f);
    } else {
        lemma_all_none(f);
    }
    assert(saved_places(routes, nets, n) =~= all_of(n, f));
}

/// The dirty nets that are cleared are those routed anew that the routes do not name, in order.
pub proof fn the_nets_cleared_are_those_routed_anew_with_no_route(routes: Map<Seq<char>, Seq<GSegment>>, nets: Seq<DirtyNet>, anew: Seq<bool>, n: int)
    requires
        0 <= n,
    ensures
        cleared_places(routes, nets, anew, n) == all_of(
            n,
            |k: int| if anew[k] && !routes.dom().contains(nets[k].name@) { seq![k as usize] } else { Seq::empty() },
        ),
    decreases n,
{
    let f = |k: int| if anew[k] && !routes.dom().contains(nets[k].name@) { seq![k as usize] } else { Seq::empty() };
    if n > 0 {
        the_nets_cleared_are_those_routed_anew_with_no_route(routes, nets, anew, n - 1);
        lemma_all_next(n - 1, f);
    } else {
        lemma_all_none(f);
    }
    assert(cleared_places(routes, nets, anew, n) =~= all_of(n, f));
}

/// The net found under a name has it, is the last that does, and one is found wherever one has.
pub proof fn a_net_is_found_by_its_name(nets: Seq<GrNet>, name: Seq<char>, n: int)
    requires
        0 <= n,
    ensures
        is_last_of(place_named(nets, name, n), n, |k: int| nets[k].name@ == name),
    decreases n,
{
    if n > 0 {
        a_net_is_found_by_its_name(nets, name, n - 1);
    }
}

/// The outcomes taken over are those of the nets that have one, each with its net, in order.
pub proof fn the_outcomes_taken_over_are_those_there_are(t: Takeover, n: int)
    requires
        0 <= n,
    ensures
        outcomes_of(t, n) == all_of(
            n,
            |k: int| if t.outcomes[k] is Some { seq![(k, t.outcomes[k]->Some_0)] } else { Seq::empty() },
        ),
    decreases n,
{
    let f = |k: int| if t.outcomes[k] is Some { seq![(k, t.outcomes[k]->Some_0)] } else { Seq::empty() };
    if n > 0 {
        the_outcomes_taken_over_are_those_there_are(t, n - 1);
        lemma_all_next(n - 1, f);
    } else {
        lemma_all_none(f);
    }
    assert(outcomes_of(t, n) =~= all_of(n, f));
}

/// The nets come in the order given, each where its name is found; a name of no net is left out.
pub proof fn the_order_of_the_nets_is_the_one_given(order: Seq<String>, nets: Seq<RemainingNet>, n: int)
    requires
        0 <= n,
    ensures
        places_upto(order, nets, n) == all_of(
            n,
            |k: int| if net_place(nets, order[k]@, 0) is Some { seq![net_place(nets, order[k]@, 0)->Some_0] } else { Seq::empty() },
        ),
    decreases n,
{
    let f = |k: int| if net_place(nets, order[k]@, 0) is Some { seq![net_place(nets, order[k]@, 0)->Some_0] } else { Seq::empty() };
    if n > 0 {
        the_order_of_the_nets_is_the_one_given(order, nets, n - 1);
        lemma_all_next(n - 1, f);
    } else {
        lemma_all_none(f);
    }
    assert(places_upto(order, nets, n) =~= all_of(n, f));
}

/// A route kept is found at the first place of its name, and wherever there is one.
pub proof fn a_kept_route_is_found_by_its_name(kept: Seq<NetRoute>, name: Seq<char>, k: int)
    requires
        0 <= k <= kept.len(),
    ensures
        is_first_of(kept_at(kept, name, k), k, kept.len() as int, |i: int| kept[i].name@ == name),
    decreases kept.len() - k,
{
    if k < kept.len() {
        a_kept_route_is_found_by_its_name(kept, name, k + 1);
    }
}

/// A layer is found at the first place of its level, and wherever there is one.
pub proof fn a_layer_is_found_by_its_level(layers: Seq<AdjustableLayer>, level: int, k: int)
    requires
        0 <= k <= layers.len(),
    ensures
        is_first_of(layer_at(layers, level, k), k, layers.len() as int, |i: int| layers[i].routing_level == level),
    decreases layers.len() - k,
{
    if k < layers.len() {
        a_layer_is_found_by_its_level(layers, level, k + 1);
    }
}

/// A net is found at the first place of its name, and wherever there is one.
pub proof fn a_remaining_net_is_found_by_its_name(nets: Seq<RemainingNet>, name: Seq<char>, k: int)
    requires
        0 <= k <= nets.len(),
    ensures
        is_first_of(net_place(nets, name, k), k, nets.len() as int, |i: int| nets[i].name@ == name),
    decreases nets.len() - k,
{
    if k < nets.len() {
        a_remaining_net_is_found_by_its_name(nets, name, k + 1);
    }
}

/// The layers adjusted are, level by level, those found that have no adjustment of their own.
pub proof fn the_layers_adjusted_are_those_without_an_adjustment(layers: Seq<AdjustableLayer>, min: int, n: int)
    requires
        0 <= n,
    ensures
        to_adjust(layers, min, min + n) == all_of(
            n,
            |k: int| if layer_at(layers, min + k, 0) is Some && !layers[layer_at(layers, min + k, 0)->Some_0].has_adjustment { seq![layer_at(layers, min + k, 0)->Some_0 as usize] } else { Seq::empty() },
        ),
    decreases n,
{
    let f = |k: int| if layer_at(layers, min + k, 0) is Some && !layers[layer_at(layers, min + k, 0)->Some_0].has_adjustment { seq![layer_at(layers, min + k, 0)->Some_0 as usize] } else { Seq::empty() };
    if n > 0 {
        the_layers_adjusted_are_those_without_an_adjustment(layers, min, n - 1);
        lemma_all_next(n - 1, f);
    } else {
        lemma_all_none(f);
    }
    assert(to_adjust(layers, min, min + n) =~= all_of(n, f));
}

} // verus!
