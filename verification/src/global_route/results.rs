//! What is kept of a run, and what is routed again after a change.

use crate::lists::{all_of, is_first_of, lemma_all_next, lemma_all_none};
use vstd::prelude::*;
use vstd::string::StringExecFns;

use super::nets::RouterNet;
use crate::callbacks::same_text;
use crate::cugr::route::{pin_places, pins_moved, NetPin};
use crate::findrouting::{route_of, GridPin, Routes};
use crate::text::{dec, is_text_less, lemma_text_less_trans, lemma_text_order, push_nat, text_less};
use crate::vecs::copy_vec;
use crate::GSegment;

verus! {

/// A net's route as guides are written from it.
#[derive(Debug)]
pub struct NetRoute {
    pub name: String,
    pub segments: Vec<GSegment>,
    pub pins: Vec<GridPin>,
    pub is_local: bool,
}

/// A pin as routes read it.
pub open spec fn grid_pin(p: NetPin) -> GridPin {
    (p.on_grid.0, p.on_grid.1, p.connection_layer)
}

pub open spec fn grid_pins_of(pins: Seq<NetPin>) -> Seq<GridPin> {
    pins.map_values(|p: NetPin| grid_pin(p))
}

/// A net's pins as routes read them.
pub fn grid_pins(n: &RouterNet) -> (v: Vec<GridPin>)
    ensures
        v@ == grid_pins_of(n.net_pins@),
{
    let mut v: Vec<GridPin> = Vec::new();
    let mut k: usize = 0;
    while k < n.net_pins.len()
        invariant
            k <= n.net_pins@.len(),
            v@ == grid_pins_of(n.net_pins@.take(k as int)),
        decreases n.net_pins@.len() - k,
    {
        let p = &n.net_pins[k];
        v.push((p.on_grid.0, p.on_grid.1, p.connection_layer));
        k += 1;
        assert(v@ =~= grid_pins_of(n.net_pins@.take(k as int)));
    }
    assert(n.net_pins@.take(k as int) =~= n.net_pins@);
    v
}

/// The number of the first net of a name, from the `k`-th on.
pub open spec fn id_at(nets: Seq<RouterNet>, name: Seq<char>, k: int) -> Option<int>
    decreases nets.len() - k,
{
    if k >= nets.len() {
        None
    } else if nets[k].name@ == name {
        Some(k)
    } else {
        id_at(nets, name, k + 1)
    }
}

/// The number of the net of a name.
pub fn net_id(nets: &Vec<RouterNet>, name: &str) -> (r: Option<usize>)
    ensures
        match r {
            Some(k) => id_at(nets@, name@, 0) == Some(k as int) && k < nets@.len() && nets@[k as int].name@ == name@,
            None => id_at(nets@, name@, 0) is None,
        },
{
    let mut k: usize = 0;
    while k < nets.len()
        invariant
            k <= nets@.len(),
            id_at(nets@, name@, k as int) == id_at(nets@, name@, 0),
        decreases nets@.len() - k,
    {
        if same_text(nets[k].name.as_str(), name) {
            return Some(k);
        }
        k += 1;
    }
    None
}

/// Whether a kept route is that of a net: its pins, and its segments of a run's routes.
pub open spec fn is_route_of(r: NetRoute, n: RouterNet, routes: Map<Seq<char>, Seq<GSegment>>) -> bool {
    &&& r.name@ == n.name@
    &&& r.segments@ == route_of(routes, n.name@)
    &&& r.pins@ == grid_pins_of(n.net_pins@)
    &&& r.is_local == n.is_local
}

/// Those of the first `n` names that are nets of the router.
pub open spec fn known_ids(order: Seq<String>, nets: Seq<RouterNet>, n: int) -> Seq<int>
    decreases n,
{
    if n <= 0 {
        Seq::empty()
    } else {
        match id_at(nets, order[n - 1]@, 0) {
            Some(k) => known_ids(order, nets, n - 1).push(k),
            None => known_ids(order, nets, n - 1),
        }
    }
}

/// What guides are written from: the router's nets in the block's order, each with its route.
pub fn net_routes(order: &Vec<String>, nets: &Vec<RouterNet>, routes: &Routes) -> (out: Vec<NetRoute>)
    requires
        routes.wf(),
    ensures
        ({
            let ids = known_ids(order@, nets@, order@.len() as int);
            &&& out@.len() == ids.len()
            &&& forall|k: int| 0 <= k < ids.len() ==> is_route_of(#[trigger] out@[k], nets@[ids[k]], routes@)
        }),
{
    let mut out: Vec<NetRoute> = Vec::new();
    let mut k: usize = 0;
    while k < order.len()
        invariant
            k <= order@.len(),
            routes.wf(),
            out@.len() == known_ids(order@, nets@, k as int).len(),
            forall|j: int| 0 <= j < out@.len() ==> is_route_of(#[trigger] out@[j], nets@[known_ids(order@, nets@, k as int)[j]], routes@),
        decreases order@.len() - k,
    {
        match net_id(nets, order[k].as_str()) {
            Some(id) => {
                let n = &nets[id];
                let segments: Vec<GSegment> = match routes.find(n.name.as_str()) {
                    Some(i) => copy_vec(&routes.0[i].1),
                    None => Vec::new(),
                };
                assert(segments@ =~= route_of(routes@, n.name@));
                out.push(NetRoute { name: String::from_str(n.name.as_str()), segments, pins: grid_pins(n), is_local: n.is_local });
            },
            None => {},
        }
        k += 1;
    }
    out
}

/// Whether a run's guides are marked congested.
pub fn guide_is_congested(total_overflow: i32, allow_congestion: bool) -> (r: bool)
    ensures
        r == (total_overflow > 0 && !allow_congestion),
{
    total_overflow > 0 && !allow_congestion
}

// ---- routing again ----

/// A net that is routed again, and how what it took is given back: by its segments where they were restored
/// from guides, else by its tree.
#[derive(Debug, Clone, Copy, PartialEq, Eq, Structural)]
pub struct Release {
    pub id: usize,
    pub by_segments: bool,
}

/// Whether the nets are the same as before, by name and in order.
pub open spec fn same_nets(a: Seq<RouterNet>, b: Seq<RouterNet>) -> bool {
    a.len() == b.len() && forall|k: int| 0 <= k < a.len() ==> (#[trigger] a[k]).name@ == b[k].name@
}

/// Whether the nets read now are those of the run, by name and in order.
pub fn are_same_nets(now: &Vec<RouterNet>, run: &Vec<RouterNet>) -> (r: bool)
    ensures
        r == same_nets(now@, run@),
{
    if now.len() != run.len() {
        return false;
    }
    let mut k: usize = 0;
    while k < now.len()
        invariant
            now@.len() == run@.len(),
            k <= now@.len(),
            forall|j: int| 0 <= j < k ==> (#[trigger] now@[j]).name@ == run@[j].name@,
        decreases now@.len() - k,
    {
        if !same_text(now[k].name.as_str(), run[k].name.as_str()) {
            assert(now@[k as int].name@ != run@[k as int].name@);
            return false;
        }
        k += 1;
    }
    true
}

/// The nets routed again of the first `n` dirty ones: those of the router whose pins moved.
pub open spec fn releases(dirty: Seq<String>, run: Seq<RouterNet>, now: Seq<RouterNet>, restored: Seq<bool>, n: int) -> Seq<Release>
    decreases n,
{
    if n <= 0 {
        Seq::empty()
    } else {
        let s = releases(dirty, run, now, restored, n - 1);
        match id_at(run, dirty[n - 1]@, 0) {
            Some(id) => if pin_places(run[id].net_pins@) != pin_places(now[id].net_pins@) { s.push(Release { id: id as usize, by_segments: restored[id] }) } else { s },
            None => s,
        }
    }
}

/// Which dirty nets are routed again: those whose pins moved since the run, in order.
pub fn update_dirty_nets(dirty: &Vec<String>, run: &Vec<RouterNet>, now: &Vec<RouterNet>, restored: &Vec<bool>) -> (out: Vec<Release>)
    requires
        now@.len() == run@.len(),
        restored@.len() == run@.len(),
    ensures
        out@ == releases(dirty@, run@, now@, restored@, dirty@.len() as int),
{
    let mut out: Vec<Release> = Vec::new();
    let mut k: usize = 0;
    while k < dirty.len()
        invariant
            now@.len() == run@.len(),
            restored@.len() == run@.len(),
            k <= dirty@.len(),
            out@ == releases(dirty@, run@, now@, restored@, k as int),
        decreases dirty@.len() - k,
    {
        match net_id(run, dirty[k].as_str()) {
            Some(id) => {
                if pins_moved(run[id].net_pins.as_slice(), now[id].net_pins.as_slice()) {
                    out.push(Release { id, by_segments: restored[id] });
                }
            },
            None => {},
        }
        k += 1;
    }
    out
}

/// The nets of the first `n` released ones that the router is given: those with two pins or more that are not
/// local.
pub open spec fn given_again(r: Seq<Release>, now: Seq<RouterNet>, n: int) -> Seq<usize>
    decreases n,
{
    if n <= 0 {
        Seq::empty()
    } else {
        let s = given_again(r, now, n - 1);
        let m = now[r[n - 1].id as int];
        if m.net_pins@.len() > 1 && !m.is_local { s.push(r[n - 1].id) } else { s }
    }
}

/// Which released nets the router is given again.
pub fn init_fast_route_incr(r: &Vec<Release>, now: &Vec<RouterNet>) -> (ids: Vec<usize>)
    requires
        forall|k: int| 0 <= k < r@.len() ==> (#[trigger] r@[k]).id < now@.len(),
    ensures
        ids@ == given_again(r@, now@, r@.len() as int),
{
    let mut ids: Vec<usize> = Vec::new();
    let mut k: usize = 0;
    while k < r.len()
        invariant
            k <= r@.len(),
            forall|k: int| 0 <= k < r@.len() ==> (#[trigger] r@[k]).id < now@.len(),
            ids@ == given_again(r@, now@, k as int),
        decreases r@.len() - k,
    {
        let id: usize = r[k].id;
        assert(r@[k as int].id < now@.len());
        if now[id].net_pins.len() > 1 && !now[id].is_local {
            ids.push(id);
        }
        k += 1;
    }
    ids
}

/// Whether a kept route is what a new run makes of it: its new segments and pins where the run has it, else as
/// it was.
pub open spec fn is_merged_result(before: NetRoute, after: NetRoute, routes: Map<Seq<char>, Seq<GSegment>>, nets: Seq<RouterNet>) -> bool {
    &&& after.name == before.name
    &&& after.is_local == before.is_local
    &&& if routes.dom().contains(before.name@) {
        &&& after.segments@ == routes[before.name@]
        &&& match id_at(nets, before.name@, 0) {
            Some(id) => after.pins@ == grid_pins_of(nets[id].net_pins@),
            None => after.pins == before.pins,
        }
    } else {
        after == before
    }
}

/// Puts a new run's routes in the place of the old ones.
pub fn merge_results(kept: &mut Vec<NetRoute>, routes: &Routes, nets: &Vec<RouterNet>)
    requires
        routes.wf(),
    ensures
        final(kept)@.len() == old(kept)@.len(),
        forall|k: int| 0 <= k < old(kept)@.len() ==> is_merged_result(old(kept)@[k], #[trigger] final(kept)@[k], routes@, nets@),
{
    let ghost kept0 = kept@;
    let mut k: usize = 0;
    while k < kept.len()
        invariant
            routes.wf(),
            kept@.len() == kept0.len(),
            k <= kept@.len(),
            forall|j: int| 0 <= j < k ==> is_merged_result(kept0[j], #[trigger] kept@[j], routes@, nets@),
            forall|j: int| k <= j < kept@.len() ==> #[trigger] kept@[j] == kept0[j],
        decreases kept@.len() - k,
    {
        match routes.find(kept[k].name.as_str()) {
            Some(i) => {
                let pins: Option<Vec<GridPin>> = match net_id(nets, kept[k].name.as_str()) {
                    Some(id) => Some(grid_pins(&nets[id])),
                    None => None,
                };
                kept[k].segments = copy_vec(&routes.0[i].1);
                match pins {
                    Some(p) => {
                        kept[k].pins = p;
                    },
                    None => {},
                }
            },
            None => {},
        }
        k += 1;
    }
}

// ---- routes from guides ----

/// A net of the block with guides, as the router restores its route.
#[derive(Debug)]
pub struct GuidedNet {
    pub name: String,
    pub has_guides: bool,
    pub has_congested_guide: bool,
    /// Whether the router knows the net.
    pub is_known: bool,
    /// How many pins no restored segment covers.
    pub uncovered: usize,
    /// Whether the net has detailed wires.
    pub is_detailed: bool,
    pub has_ndr: bool,
}

/// Guides that routes cannot be restored from.
#[derive(Debug)]
pub enum RestoreError {
    Congested { net: String },
    NotKnown { net: String },
    Uncovered { net: String, pins: usize },
    Detailed { net: String },
    OwnRule { net: String },
}

/// What is said of it.
pub open spec fn restore_error_text(e: RestoreError) -> Seq<char> {
    match e {
        RestoreError::Congested { net } => "net "@ + net@ + ": a congested guide \u{2014} restoring a congested routing is not modelled"@,
        RestoreError::NotKnown { net } => "[ERROR GRT-0127] net_id for db_net "@ + net@ + " not found \u{2014} not modelled"@,
        RestoreError::Uncovered { net, pins } => "net "@ + net@ + ": "@ + dec(pins as int) + " pin(s) not covered by the restored guides \u{2014} ensurePinsPositions is not modelled"@,
        RestoreError::Detailed { net } => "net "@ + net@ + ": detail-routed \u{2014} its usage from wires is not modelled"@,
        RestoreError::OwnRule { net } => "net "@ + net@ + ": an NDR net restored from guides \u{2014} disableCongestedNDRNetsFromRoutes is not modelled"@,
    }
}

impl RestoreError {
    /// What is said of it.
    pub fn message(&self) -> (s: String)
        ensures
            s@ == restore_error_text(*self),
    {
        match self {
            RestoreError::Congested { net } => {
                let mut s = String::from_str("net ");
                s.append(net.as_str());
                s.append(": a congested guide \u{2014} restoring a congested routing is not modelled");
                s
            },
            RestoreError::NotKnown { net } => {
                let mut s = String::from_str("[ERROR GRT-0127] net_id for db_net ");
                s.append(net.as_str());
                s.append(" not found \u{2014} not modelled");
                s
            },
            RestoreError::Uncovered { net, pins } => {
                let mut s = String::from_str("net ");
                s.append(net.as_str());
                s.append(": ");
                push_nat(&mut s, *pins as u64);
                s.append(" pin(s) not covered by the restored guides \u{2014} ensurePinsPositions is not modelled");
                s
            },
            RestoreError::Detailed { net } => {
                let mut s = String::from_str("net ");
                s.append(net.as_str());
                s.append(": detail-routed \u{2014} its usage from wires is not modelled");
                s
            },
            RestoreError::OwnRule { net } => {
                let mut s = String::from_str("net ");
                s.append(net.as_str());
                s.append(": an NDR net restored from guides \u{2014} disableCongestedNDRNetsFromRoutes is not modelled");
                s
            },
        }
    }
}

/// Whether a net's guides cannot be read.
pub open spec fn is_congested(n: GuidedNet) -> bool {
    n.has_guides && n.has_congested_guide
}

/// Whether a net's route does not hold.
pub open spec fn is_broken(n: GuidedNet) -> bool {
    n.has_guides && (!n.is_known || n.uncovered > 0)
}

/// Whether a net's route cannot be charged.
pub open spec fn is_uncharged(n: GuidedNet) -> bool {
    n.has_guides && (n.is_detailed || n.has_ndr)
}

pub open spec fn no_congested(v: Seq<GuidedNet>, n: int) -> bool {
    forall|k: int| 0 <= k < n ==> !is_congested(#[trigger] v[k])
}

pub open spec fn no_broken(v: Seq<GuidedNet>, n: int) -> bool {
    forall|k: int| 0 <= k < n ==> !is_broken(#[trigger] v[k])
}

pub open spec fn no_uncharged(v: Seq<GuidedNet>, n: int) -> bool {
    forall|k: int| 0 <= k < n ==> !is_uncharged(#[trigger] v[k])
}

/// Whether a net is the broken one whose name comes first.
pub open spec fn is_least_broken(v: Seq<GuidedNet>, k: int) -> bool {
    0 <= k < v.len() && is_broken(v[k]) && forall|j: int| 0 <= j < v.len() && is_broken(#[trigger] v[j]) ==> !text_less(v[j].name@, v[k].name@)
}

/// Whether an error says what stops the nets' routes from being restored: first a congested guide, in the
/// block's order; then a route that does not hold, in the order of names; then a route that cannot be charged,
/// in the block's order.
pub open spec fn is_restore_error(e: RestoreError, v: Seq<GuidedNet>, k: int) -> bool {
    &&& 0 <= k < v.len()
    &&& match e {
        RestoreError::Congested { net } => no_congested(v, k) && is_congested(v[k]) && net@ == v[k].name@,
        RestoreError::NotKnown { net } => no_congested(v, v.len() as int) && is_least_broken(v, k) && !v[k].is_known && net@ == v[k].name@,
        RestoreError::Uncovered { net, pins } => no_congested(v, v.len() as int) && is_least_broken(v, k) && v[k].is_known && net@ == v[k].name@ && pins == v[k].uncovered,
        RestoreError::Detailed { net } => no_congested(v, v.len() as int) && no_broken(v, v.len() as int) && no_uncharged(v, k) && is_uncharged(v[k]) && v[k].is_detailed && net@ == v[k].name@,
        RestoreError::OwnRule { net } => no_congested(v, v.len() as int) && no_broken(v, v.len() as int) && no_uncharged(v, k) && is_uncharged(v[k]) && !v[k].is_detailed && net@ == v[k].name@,
    }
}

/// The nets of the first `n` that have guides.
pub open spec fn guided(v: Seq<GuidedNet>, n: int) -> Seq<usize>
    decreases n,
{
    if n <= 0 {
        Seq::empty()
    } else if v[n - 1].has_guides {
        guided(v, n - 1).push((n - 1) as usize)
    } else {
        guided(v, n - 1)
    }
}

/// Which nets' routes are restored from guides and charged, in the block's order: all that have guides.
pub fn restore_for_repair(v: &Vec<GuidedNet>) -> (r: Result<Vec<usize>, RestoreError>)
    ensures
        match r {
            Ok(ids) => no_congested(v@, v@.len() as int) && no_broken(v@, v@.len() as int) && no_uncharged(v@, v@.len() as int) && ids@ == guided(v@, v@.len() as int),
            Err(e) => exists|k: int| #[trigger] is_restore_error(e, v@, k),
        },
{
    let mut k: usize = 0;
    while k < v.len()
        invariant
            k <= v@.len(),
            no_congested(v@, k as int),
        decreases v@.len() - k,
    {
        if v[k].has_guides && v[k].has_congested_guide {
            let e = RestoreError::Congested { net: String::from_str(v[k].name.as_str()) };
            assert(is_restore_error(e, v@, k as int));
            return Err(e);
        }
        k += 1;
    }
    let mut worst: Option<usize> = None;
    k = 0;
    while k < v.len()
        invariant
            k <= v@.len(),
            match worst {
                None => no_broken(v@, k as int),
                Some(w) => w < k && is_broken(v@[w as int]) && forall|j: int| 0 <= j < k && is_broken(#[trigger] v@[j]) ==> !text_less(v@[j].name@, v@[w as int].name@),
            },
        decreases v@.len() - k,
    {
        if v[k].has_guides && (!v[k].is_known || v[k].uncovered > 0) {
            let first = match worst {
                None => true,
                Some(w) => is_text_less(v[k].name.as_str(), v[w].name.as_str()),
            };
            if first {
                proof {
                    match worst {
                        None => {
                            lemma_text_order(v@[k as int].name@, v@[k as int].name@);
                        },
                        Some(w) => {
                            lemma_text_order(v@[k as int].name@, v@[k as int].name@);
                            assert forall|j: int| 0 <= j < k && is_broken(#[trigger] v@[j]) implies !text_less(v@[j].name@, v@[k as int].name@) by {
                                if text_less(v@[j].name@, v@[k as int].name@) {
                                    lemma_text_less_trans(v@[j].name@, v@[k as int].name@, v@[w as int].name@);
                                }
                            }
                        },
                    }
                }
                worst = Some(k);
            }
        }
        k += 1;
    }
    match worst {
        Some(w) => {
            let name = String::from_str(v[w].name.as_str());
            let e = if !v[w].is_known { RestoreError::NotKnown { net: name } } else { RestoreError::Uncovered { net: name, pins: v[w].uncovered } };
            assert(is_restore_error(e, v@, w as int));
            return Err(e);
        },
        None => {},
    }
    let mut out: Vec<usize> = Vec::new();
    k = 0;
    while k < v.len()
        invariant
            k <= v@.len(),
            no_congested(v@, v@.len() as int),
            no_broken(v@, v@.len() as int),
            no_uncharged(v@, k as int),
            out@ == guided(v@, k as int),
        decreases v@.len() - k,
    {
        if v[k].has_guides {
            if v[k].is_detailed || v[k].has_ndr {
                let name = String::from_str(v[k].name.as_str());
                let e = if v[k].is_detailed { RestoreError::Detailed { net: name } } else { RestoreError::OwnRule { net: name } };
                assert(is_restore_error(e, v@, k as int));
                return Err(e);
            }
            out.push(k);
        }
        k += 1;
    }
    Ok(out)
}


// ---- a picture of the trees ----

/// An edge of a net's tree at one moment: its ends, its length and the points of its route in order.
#[derive(Debug)]
pub struct SnapshotEdge {
    pub n1: usize,
    pub n2: usize,
    pub len: i32,
    pub routelen: i32,
    pub grids: Vec<(i32, i32)>,
}

/// How many points a route has, of those that it keeps.
pub open spec fn points_used(routelen: i32, kept: int) -> int {
    let n = (if routelen > 0 { routelen as int } else { 0 }) + 1;
    if n < kept { n } else { kept }
}

/// A picture of an edge: its route's points up to its length, those kept past it left out.
pub fn snapshot_edge(n1: usize, n2: usize, len: i32, routelen: i32, grids: &Vec<(i32, i32)>) -> (e: SnapshotEdge)
    requires
        grids@.len() > 0,
    ensures
        e.n1 == n1,
        e.n2 == n2,
        e.len == len,
        e.routelen == routelen,
        e.grids@ == grids@.take(points_used(routelen, grids@.len() as int)),
{
    let mut points: Vec<(i32, i32)> = Vec::new();
    let last: usize = if routelen > 0 { routelen as usize } else { 0 };
    let mut k: usize = 0;
    while k < grids.len() && k <= last
        invariant
            k <= grids@.len(),
            k <= last + 1,
            points@ == grids@.take(k as int),
        decreases grids@.len() - k,
    {
        points.push(grids[k]);
        k += 1;
        assert(points@ =~= grids@.take(k as int));
    }
    SnapshotEdge { n1, n2, len, routelen, grids: points }
}

/// A net is found at the first place of its name, and wherever its name stands at all.
pub proof fn a_net_is_found_where_its_name_first_stands(nets: Seq<RouterNet>, name: Seq<char>, k: int)
    requires
        0 <= k <= nets.len(),
    ensures
        is_first_of(id_at(nets, name, k), k, nets.len() as int, |i: int| nets[i].name@ == name),
    decreases nets.len() - k,
{
    if k < nets.len() {
        a_net_is_found_where_its_name_first_stands(nets, name, k + 1);
    }
}

/// The nets come in the order given, each where its name is found; a name of no net is left out.
pub proof fn the_nets_in_order_are_those_known(order: Seq<String>, nets: Seq<RouterNet>, n: int)
    requires
        0 <= n,
    ensures
        known_ids(order, nets, n) == all_of(
            n,
            |k: int| if id_at(nets, order[k]@, 0) is Some { seq![id_at(nets, order[k]@, 0)->Some_0] } else { Seq::empty() },
        ),
    decreases n,
{
    let f = |k: int| if id_at(nets, order[k]@, 0) is Some { seq![id_at(nets, order[k]@, 0)->Some_0] } else { Seq::empty() };
    if n > 0 {
        the_nets_in_order_are_those_known(order, nets, n - 1);
        lemma_all_next(n - 1, f);
    } else {
        lemma_all_none(f);
    }
    assert(known_ids(order, nets, n) =~= all_of(n, f));
}

/// The nets released are the dirty ones that the run knows and whose pins are no longer where
/// they were, in order.
pub proof fn the_nets_released_are_those_whose_pins_moved(dirty: Seq<String>, run: Seq<RouterNet>, now: Seq<RouterNet>, restored: Seq<bool>, n: int)
    requires
        0 <= n,
    ensures
        releases(dirty, run, now, restored, n) == all_of(
            n,
            |k: int| if id_at(run, dirty[k]@, 0) is Some && pin_places(run[id_at(run, dirty[k]@, 0)->Some_0].net_pins@) != pin_places(now[id_at(run, dirty[k]@, 0)->Some_0].net_pins@) { seq![Release { id: id_at(run, dirty[k]@, 0)->Some_0 as usize, by_segments: restored[id_at(run, dirty[k]@, 0)->Some_0] }] } else { Seq::empty() },
        ),
    decreases n,
{
    let f = |k: int| if id_at(run, dirty[k]@, 0) is Some && pin_places(run[id_at(run, dirty[k]@, 0)->Some_0].net_pins@) != pin_places(now[id_at(run, dirty[k]@, 0)->Some_0].net_pins@) { seq![Release { id: id_at(run, dirty[k]@, 0)->Some_0 as usize, by_segments: restored[id_at(run, dirty[k]@, 0)->Some_0] }] } else { Seq::empty() };
    if n > 0 {
        the_nets_released_are_those_whose_pins_moved(dirty, run, now, restored, n - 1);
        lemma_all_next(n - 1, f);
    } else {
        lemma_all_none(f);
    }
    assert(releases(dirty, run, now, restored, n) =~= all_of(n, f));
}

/// The nets given again are those released that have more than one pin and are not local, in
/// order.
pub proof fn the_nets_given_again_have_pins_apart(r: Seq<Release>, now: Seq<RouterNet>, n: int)
    requires
        0 <= n,
    ensures
        given_again(r, now, n) == all_of(
            n,
            |k: int| if now[r[k].id as int].is_local || now[r[k].id as int].net_pins@.len() <= 1 { Seq::empty() } else { seq![r[k].id] },
        ),
    decreases n,
{
    let f = |k: int| if now[r[k].id as int].is_local || now[r[k].id as int].net_pins@.len() <= 1 { Seq::empty() } else { seq![r[k].id] };
    if n > 0 {
        the_nets_given_again_have_pins_apart(r, now, n - 1);
        lemma_all_next(n - 1, f);
    } else {
        lemma_all_none(f);
    }
    assert(given_again(r, now, n) =~= all_of(n, f));
}

/// The nets guided are those that have guides, in order.
pub proof fn the_guided_nets_are_those_with_guides(v: Seq<GuidedNet>, n: int)
    requires
        0 <= n,
    ensures
        guided(v, n) == all_of(
            n,
            |k: int| if v[k].has_guides { seq![k as usize] } else { Seq::empty() },
        ),
    decreases n,
{
    let f = |k: int| if v[k].has_guides { seq![k as usize] } else { Seq::empty() };
    if n > 0 {
        the_guided_nets_are_those_with_guides(v, n - 1);
        lemma_all_next(n - 1, f);
    } else {
        lemma_all_none(f);
    }
    assert(guided(v, n) =~= all_of(n, f));
}

} // verus!
