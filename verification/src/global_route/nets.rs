//! The nets as the router receives them, and what is chosen for each.

use crate::lists::{all_of, is_first_of, lemma_all_next, lemma_all_none};
use vstd::prelude::*;
use vstd::string::StringExecFns;

use super::usage::{wrap, wrapped};
use crate::adjust::{adjusted, EdgesView, RouterEdges};
use crate::callbacks::same_text;
use crate::cugr::route::{is_local, NetPin};
use crate::vecs::filled;
use crate::text::{dec, push_nat};

verus! {

/// A net as the router receives it.
#[derive(Debug)]
pub struct RouterNet {
    pub name: String,
    /// Column, row and routing level of each pin on the grid.
    pub pins: Vec<(i32, i32, i32)>,
    pub root: usize,
    pub is_clock: bool,
    /// Whether all pins stand at one place: such a net is given a number but is never routed.
    pub is_local: bool,
    /// Routing levels, from 1.
    pub min_layer: i32,
    pub max_layer: i32,
    pub edge_cost: i8,
    /// The cost of an edge by layer, from 0; `None` without a rule of its own.
    pub layer_edge_cost: Option<Vec<i8>>,
    pub has_ndr: bool,
    /// The pins as they were placed, in the net's order.
    pub net_pins: Vec<NetPin>,
    pub pin_is_driver: Vec<bool>,
    pub term_count: i32,
}

/// A level counted from 0.
pub open spec fn layer_of(level: i32) -> int {
    if level > 1 { level - 1 } else { 0 }
}

/// The costs of the net's own layers: one by one where it has a rule of its own, else 1 for each.
pub open spec fn range_costs(n: RouterNet) -> Seq<i8> {
    match n.layer_edge_cost {
        Some(v) if n.max_layer >= n.min_layer => v@.subrange(layer_of(n.min_layer), layer_of(n.max_layer) + 1),
        _ => Seq::new((if n.max_layer >= n.min_layer { n.max_layer - n.min_layer + 1 } else { 0 }) as nat, |l: int| 1i8),
    }
}

/// Whether a rule of its own covers the net's layers.
pub open spec fn costs_cover(n: RouterNet) -> bool {
    match n.layer_edge_cost {
        Some(v) => n.max_layer >= n.min_layer ==> layer_of(n.max_layer) < v@.len(),
        None => n.max_layer - n.min_layer < usize::MAX,
    }
}

/// The cost of an edge on each of the net's own layers.
pub fn net_range_edge_costs(n: &RouterNet) -> (v: Vec<i8>)
    requires
        costs_cover(*n),
    ensures
        v@ == range_costs(*n),
{
    if n.max_layer < n.min_layer {
        let v: Vec<i8> = Vec::new();
        assert(v@ =~= range_costs(*n));
        return v;
    }
    match &n.layer_edge_cost {
        Some(c) => {
            let lo: usize = if n.min_layer > 1 { (n.min_layer - 1) as usize } else { 0 };
            let hi: usize = if n.max_layer > 1 { (n.max_layer - 1) as usize } else { 0 };
            let total: usize = c.len();
            let mut v: Vec<i8> = Vec::new();
            let mut k: usize = lo;
            while k <= hi
                invariant
                    total == c@.len(),
                    hi < total,
                    lo <= k <= hi + 1,
                    hi < c@.len(),
                    v@ == c@.subrange(lo as int, k as int),
                decreases hi + 1 - k,
            {
                v.push(c[k]);
                k += 1;
                assert(v@ =~= c@.subrange(lo as int, k as int));
            }
            v
        },
        None => {
            let total: usize = (n.max_layer as i64 - n.min_layer as i64 + 1) as usize;
            let v = filled(1i8, total);
            assert(v@ =~= range_costs(*n));
            v
        },
    }
}

/// The cost of an edge on each of the first layers.
pub open spec fn all_costs(n: RouterNet, layers: int) -> Seq<i8> {
    match n.layer_edge_cost {
        Some(v) => v@.take(layers),
        None => Seq::new(layers as nat, |l: int| 1i8),
    }
}

/// The cost of an edge on each of the first layers; 1 without a rule of its own.
pub fn all_layer_edge_costs(n: &RouterNet, num_layers: usize) -> (v: Vec<i8>)
    requires
        match n.layer_edge_cost {
            Some(c) => num_layers <= c@.len(),
            None => true,
        },
    ensures
        v@ == all_costs(*n, num_layers as int),
{
    match &n.layer_edge_cost {
        None => filled(1i8, num_layers),
        Some(c) => {
            let mut v: Vec<i8> = Vec::new();
            let mut k: usize = 0;
            while k < num_layers
                invariant
                    k <= num_layers <= c@.len(),
                    v@ == c@.take(k as int),
                decreases num_layers - k,
            {
                v.push(c[k]);
                k += 1;
                assert(v@ =~= c@.take(k as int));
            }
            v
        },
    }
}

/// A net's costs as later commands read them: a net whose rule was given up counts 1 on every layer.
pub fn kept_edge_costs(n: &RouterNet, num_layers: usize, is_soft: bool) -> (v: Vec<i8>)
    requires
        match n.layer_edge_cost {
            Some(c) => num_layers <= c@.len(),
            None => true,
        },
    ensures
        v@ == (if is_soft { Seq::new(num_layers as nat, |l: int| 1i8) } else { all_costs(*n, num_layers as int) }),
{
    if is_soft { filled(1i8, num_layers) } else { all_layer_edge_costs(n, num_layers) }
}

/// The numbers of the first `n` nets that are routed: those that are not local.
pub open spec fn routed_ids(nets: Seq<RouterNet>, n: int) -> Seq<usize>
    decreases n,
{
    if n <= 0 {
        Seq::empty()
    } else if nets[n - 1].is_local {
        routed_ids(nets, n - 1)
    } else {
        routed_ids(nets, n - 1).push((n - 1) as usize)
    }
}

/// The numbers of the nets that are routed.
pub fn net_ids(nets: &Vec<RouterNet>) -> (ids: Vec<usize>)
    ensures
        ids@ == routed_ids(nets@, nets@.len() as int),
{
    let mut ids: Vec<usize> = Vec::new();
    let mut k: usize = 0;
    while k < nets.len()
        invariant
            k <= nets@.len(),
            ids@ == routed_ids(nets@, k as int),
        decreases nets@.len() - k,
    {
        if !nets[k].is_local {
            ids.push(k);
        }
        k += 1;
    }
    ids
}

// ---- which nets ----

/// The first place of a name, from the `k`-th on.
pub open spec fn name_at(names: Seq<String>, name: Seq<char>, k: int) -> Option<int>
    decreases names.len() - k,
{
    if k >= names.len() {
        None
    } else if names[k]@ == name {
        Some(k)
    } else {
        name_at(names, name, k + 1)
    }
}

/// The first place of a name.
pub fn find_name(names: &Vec<String>, name: &str) -> (r: Option<usize>)
    ensures
        match r {
            Some(k) => name_at(names@, name@, 0) == Some(k as int) && k < names@.len(),
            None => name_at(names@, name@, 0) is None,
        },
{
    let mut k: usize = 0;
    while k < names.len()
        invariant
            k <= names@.len(),
            name_at(names@, name@, k as int) == name_at(names@, name@, 0),
        decreases names@.len() - k,
    {
        if same_text(names[k].as_str(), name) {
            return Some(k);
        }
        k += 1;
    }
    None
}

/// A net that was asked for and is not there.
#[derive(Debug)]
pub struct NetNotFound {
    pub net: String,
}

/// What is said of it.
pub open spec fn not_found_text(e: NetNotFound) -> Seq<char> {
    match e {
        NetNotFound { net } => "net "@ + net@ + " not found"@,
    }
}

impl NetNotFound {
    /// What is said of it.
    pub fn message(&self) -> (s: String)
        ensures
            s@ == not_found_text(*self),
    {
        match self {
            NetNotFound { net } => {
                let mut s = String::from_str("net ");
                s.append(net.as_str());
                s.append(" not found");
                s
            },
        }
    }
}

/// Whether a name is the first that is not among others.
pub open spec fn is_first_missing(wanted: Seq<String>, names: Seq<String>, k: int) -> bool {
    &&& 0 <= k < wanted.len()
    &&& name_at(names, wanted[k]@, 0) is None
    &&& forall|j: int| 0 <= j < k ==> name_at(names, (#[trigger] wanted[j])@, 0) is Some
}

/// The nets to route: all of them, or those asked for in the order asked. Refused at the first that is not
/// there.
pub fn select_nets(names: &Vec<String>, wanted: Option<&Vec<String>>) -> (r: Result<Vec<usize>, NetNotFound>)
    ensures
        match wanted {
            None => r matches Ok(v) && v@ == Seq::new(names@.len(), |k: int| k as usize),
            Some(w) => match r {
                Ok(v) => v@.len() == w@.len() && forall|k: int| 0 <= k < w@.len() ==> name_at(names@, (#[trigger] w@[k])@, 0) == Some(v@[k] as int),
                Err(e) => exists|k: int| #[trigger] is_first_missing(w@, names@, k) && e.net@ == w@[k]@,
            },
        },
{
    let mut out: Vec<usize> = Vec::new();
    match wanted {
        None => {
            let mut k: usize = 0;
            while k < names.len()
                invariant
                    k <= names@.len(),
                    out@ == Seq::new(k as nat, |k: int| k as usize),
                decreases names@.len() - k,
            {
                out.push(k);
                k += 1;
                assert(out@ =~= Seq::new(k as nat, |k: int| k as usize));
            }
            Ok(out)
        },
        Some(w) => {
            let mut k: usize = 0;
            while k < w.len()
                invariant
                    wanted == Some(w),
                    k <= w@.len(),
                    out@.len() == k,
                    forall|j: int| 0 <= j < k ==> name_at(names@, (#[trigger] w@[j])@, 0) == Some(out@[j] as int),
                decreases w@.len() - k,
            {
                match find_name(names, w[k].as_str()) {
                    Some(i) => {
                        out.push(i);
                    },
                    None => {
                        assert(is_first_missing(w@, names@, k as int));
                        return Err(NetNotFound { net: String::from_str(w[k].as_str()) });
                    },
                }
                k += 1;
            }
            Ok(out)
        },
    }
}

/// Whether a net's wires are vias alone, which is refused.
pub fn is_via_only(has_wire: bool, wires: i64, vias: i64) -> (r: bool)
    ensures
        r == (has_wire && wires == 0 && vias > 0),
{
    has_wire && wires == 0 && vias > 0
}

// ---- the Steiner trees ----

/// What decides how a net's Steiner tree is weighted.
#[derive(Debug, Clone, Copy)]
pub struct AlphaRules<A: Copy> {
    /// From a wirelength on.
    pub min_hpwl: Option<(i32, A)>,
    /// From a fanout on.
    pub min_fanout: Option<(i32, A)>,
}

/// The weight of a net's Steiner tree: the net's own where one was given to it; else, where a wirelength rule
/// is set, that rule's from its wirelength on and the common one below; else, where a fanout rule is set, that
/// rule's from its fanout on; else the common one.
pub open spec fn alpha_of<A: Copy>(rules: AlphaRules<A>, own: Option<A>, common: A, hpwl: int, term_count: int) -> A {
    match own {
        Some(a) => a,
        None => match rules.min_hpwl {
            Some((h, a)) if h > 0 => if hpwl >= h { a } else { common },
            _ => match rules.min_fanout {
                Some((f, a)) if f > 0 && term_count - 1 >= f => a,
                _ => common,
            },
        },
    }
}

/// The weight of a net's Steiner tree.
pub fn steiner_alpha<A: Copy>(rules: &AlphaRules<A>, own: Option<A>, common: A, hpwl: i64, term_count: i32) -> (a: A)
    ensures
        a == alpha_of(*rules, own, common, hpwl as int, term_count as int),
{
    match own {
        Some(a) => {
            return a;
        },
        None => {},
    }
    match rules.min_hpwl {
        Some((h, a)) => {
            if h > 0 {
                return if hpwl >= h as i64 { a } else { common };
            }
        },
        None => {},
    }
    match rules.min_fanout {
        Some((f, a)) => {
            if f > 0 && term_count as i64 - 1 >= f as i64 {
                return a;
            }
        },
        None => {},
    }
    common
}

/// An instance terminal as the wirelength reads it.
#[derive(Debug)]
pub struct InstanceTerm {
    pub inst: String,
    pub name: String,
    pub is_placed: bool,
    /// The average of its pin boxes, if it has any.
    pub at: Option<(i32, i32)>,
}

/// A block terminal as the wirelength reads it.
#[derive(Debug)]
pub struct BlockTerm {
    pub name: String,
    pub at: Option<(i32, i32)>,
}

/// A net whose wirelength cannot be computed.
#[derive(Debug)]
pub enum HpwlError {
    Unplaced { inst: String },
    NoShape { term: String },
    NoLocation { term: String },
}

/// What is said of it.
pub open spec fn hpwl_error_text(e: HpwlError) -> Seq<char> {
    match e {
        HpwlError::Unplaced { inst } => "STT-0004: connected to unplaced instance "@ + inst@,
        HpwlError::NoShape { term } => term@ + ": no pin shape for getAvgXY \u{2014} not modelled"@,
        HpwlError::NoLocation { term } => term@ + ": no pin location \u{2014} not modelled"@,
    }
}

impl HpwlError {
    /// What is said of it.
    pub fn message(&self) -> (s: String)
        ensures
            s@ == hpwl_error_text(*self),
    {
        match self {
            HpwlError::Unplaced { inst } => {
                let mut s = String::from_str("STT-0004: connected to unplaced instance ");
                s.append(inst.as_str());
                s
            },
            HpwlError::NoShape { term } => {
                let mut s = String::from_str(term.as_str());
                s.append(": no pin shape for getAvgXY \u{2014} not modelled");
                s
            },
            HpwlError::NoLocation { term } => {
                let mut s = String::from_str(term.as_str());
                s.append(": no pin location \u{2014} not modelled");
                s
            },
        }
    }
}

/// The box around points, if there are any.
pub open spec fn box_around(pts: Seq<(i32, i32)>) -> Option<(int, int, int, int)>
    decreases pts.len(),
{
    if pts.len() == 0 {
        None
    } else {
        let (x, y) = (pts.last().0 as int, pts.last().1 as int);
        match box_around(pts.drop_last()) {
            None => Some((x, y, x, y)),
            Some((a, b, c, d)) => Some((if x < a { x } else { a }, if y < b { y } else { b }, if x > c { x } else { c }, if y > d { y } else { d })),
        }
    }
}

/// Half the perimeter of the box around points; 0 without any.
pub open spec fn half_perimeter(pts: Seq<(i32, i32)>) -> int {
    match box_around(pts) {
        None => 0,
        Some((a, b, c, d)) => (c - a) + (d - b),
    }
}

/// Where the terminals are: the instances', then the block's.
pub open spec fn term_points(iterms: Seq<InstanceTerm>, bterms: Seq<BlockTerm>) -> Seq<(i32, i32)> {
    iterms.map_values(|t: InstanceTerm| t.at->0) + bterms.map_values(|t: BlockTerm| t.at->0)
}

/// Whether an instance terminal counts.
pub open spec fn is_known(t: InstanceTerm) -> bool {
    t.is_placed && t.at is Some
}

/// Whether an instance terminal is the first that does not count.
pub open spec fn is_first_unknown(v: Seq<InstanceTerm>, k: int) -> bool {
    0 <= k < v.len() && !is_known(v[k]) && forall|j: int| 0 <= j < k ==> is_known(#[trigger] v[j])
}

/// Whether a block terminal is the first without a location.
pub open spec fn is_first_nowhere(v: Seq<BlockTerm>, k: int) -> bool {
    0 <= k < v.len() && v[k].at is None && forall|j: int| 0 <= j < k ==> (#[trigger] v[j]).at is Some
}

fn grow(b: Option<(i32, i32, i32, i32)>, p: (i32, i32)) -> (r: (i32, i32, i32, i32))
    ensures
        r == (match b {
            None => (p.0, p.1, p.0, p.1),
            Some((a, b, c, d)) => (if p.0 < a { p.0 } else { a }, if p.1 < b { p.1 } else { b }, if p.0 > c { p.0 } else { c }, if p.1 > d { p.1 } else { d }),
        }),
{
    match b {
        None => (p.0, p.1, p.0, p.1),
        Some((a, b, c, d)) => (if p.0 < a { p.0 } else { a }, if p.1 < b { p.1 } else { b }, if p.0 > c { p.0 } else { c }, if p.1 > d { p.1 } else { d }),
    }
}

/// Whether a box is the one around points.
pub open spec fn is_box_around(b: Option<(i32, i32, i32, i32)>, pts: Seq<(i32, i32)>) -> bool {
    match b {
        None => box_around(pts) is None,
        Some((x, y, c, d)) => box_around(pts) == Some((x as int, y as int, c as int, d as int)),
    }
}

/// Half the perimeter of the box around a net's terminals. Refused at an instance that is not placed, at an
/// instance terminal without a shape and at a block terminal without a location.
pub fn compute_hpwl(iterms: &Vec<InstanceTerm>, bterms: &Vec<BlockTerm>) -> (r: Result<i64, HpwlError>)
    ensures
        match r {
            Ok(h) => {
                &&& forall|k: int| 0 <= k < iterms@.len() ==> is_known(#[trigger] iterms@[k])
                &&& forall|k: int| 0 <= k < bterms@.len() ==> (#[trigger] bterms@[k]).at is Some
                &&& h == half_perimeter(term_points(iterms@, bterms@))
            },
            Err(HpwlError::Unplaced { inst }) => exists|k: int| #[trigger] is_first_unknown(iterms@, k) && !iterms@[k].is_placed && inst@ == iterms@[k].inst@,
            Err(HpwlError::NoShape { term }) => exists|k: int| #[trigger] is_first_unknown(iterms@, k) && iterms@[k].is_placed && term@ == iterms@[k].name@,
            Err(HpwlError::NoLocation { term }) => {
                &&& forall|k: int| 0 <= k < iterms@.len() ==> is_known(#[trigger] iterms@[k])
                &&& exists|k: int| #[trigger] is_first_nowhere(bterms@, k) && term@ == bterms@[k].name@
            },
        },
{
    let ghost pts = term_points(iterms@, bterms@);
    let mut b: Option<(i32, i32, i32, i32)> = None;
    let mut k: usize = 0;
    while k < iterms.len()
        invariant
            k <= iterms@.len(),
            pts == term_points(iterms@, bterms@),
            forall|j: int| 0 <= j < k ==> is_known(#[trigger] iterms@[j]),
            is_box_around(b, pts.take(k as int)),
        decreases iterms@.len() - k,
    {
        let t = &iterms[k];
        if !t.is_placed {
            assert(is_first_unknown(iterms@, k as int));
            return Err(HpwlError::Unplaced { inst: String::from_str(t.inst.as_str()) });
        }
        match t.at {
            None => {
                assert(is_first_unknown(iterms@, k as int));
                return Err(HpwlError::NoShape { term: String::from_str(t.name.as_str()) });
            },
            Some(p) => {
                assert(pts.take(k + 1).drop_last() =~= pts.take(k as int));
                b = Some(grow(b, p));
            },
        }
        k += 1;
    }
    let mut m: usize = 0;
    while m < bterms.len()
        invariant
            m <= bterms@.len(),
            pts == term_points(iterms@, bterms@),
            forall|j: int| 0 <= j < iterms@.len() ==> is_known(#[trigger] iterms@[j]),
            forall|j: int| 0 <= j < m ==> (#[trigger] bterms@[j]).at is Some,
            is_box_around(b, pts.take(iterms@.len() + m)),
        decreases bterms@.len() - m,
    {
        match bterms[m].at {
            None => {
                assert(is_first_nowhere(bterms@, m as int));
                return Err(HpwlError::NoLocation { term: String::from_str(bterms[m].name.as_str()) });
            },
            Some(p) => {
                assert(pts.take(iterms@.len() + m + 1).drop_last() =~= pts.take(iterms@.len() + m));
                assert(pts[iterms@.len() + m] == p);
                b = Some(grow(b, p));
            },
        }
        m += 1;
    }
    assert(pts.take(iterms@.len() + m) =~= pts);
    Ok(
        match b {
            None => 0,
            Some((x0, y0, x1, y1)) => (x1 as i64 - x0 as i64) + (y1 as i64 - y0 as i64),
        },
    )
}

// ---- slacks ----

/// Where a net's slack comes from.
#[derive(Debug, Clone, Copy, PartialEq, Eq, Structural)]
pub enum SlackSource {
    /// There is none.
    Absent,
    /// No clock is defined: every net is unconstrained.
    Unconstrained,
    /// Slacks were captured at each call.
    Captured,
}

/// Where slacks come from.
pub open spec fn source_of(has_library: bool, has_clocks: bool, has_captured: bool) -> SlackSource {
    if has_library && !has_clocks {
        SlackSource::Unconstrained
    } else if has_library && has_captured {
        SlackSource::Captured
    } else {
        SlackSource::Absent
    }
}

/// Where slacks come from: with a library and no clock every net is unconstrained; with clocks only captured
/// slacks answer.
pub fn slack_source(has_library: bool, has_clocks: bool, has_captured: bool) -> (s: SlackSource)
    ensures
        s == source_of(has_library, has_clocks, has_captured),
{
    if has_library && !has_clocks {
        SlackSource::Unconstrained
    } else if has_library && has_captured {
        SlackSource::Captured
    } else {
        SlackSource::Absent
    }
}

/// A captured slack of a net.
#[derive(Debug)]
pub struct NetSlack<T> {
    pub net: String,
    pub slack: T,
}

/// The first slack captured for a net, from the `k`-th on.
pub open spec fn slack_at<T>(v: Seq<NetSlack<T>>, name: Seq<char>, k: int) -> Option<T>
    decreases v.len() - k,
{
    if k >= v.len() {
        None
    } else if v[k].net@ == name {
        Some(v[k].slack)
    } else {
        slack_at(v, name, k + 1)
    }
}

/// A routed net whose slack was not captured, at a reading for all nets or for the nets' order.
#[derive(Debug)]
pub struct SlackMissing {
    pub net: String,
    pub is_update: bool,
}

/// What is said of it.
pub open spec fn slack_missing_text(e: SlackMissing) -> Seq<char> {
    "net "@ + e.net@ + (if e.is_update { ": no captured updateSlacks slack \u{2014} not bound"@ } else { ": no captured slack \u{2014} not bound"@ })
}

impl SlackMissing {
    /// What is said of it.
    pub fn message(&self) -> (s: String)
        ensures
            s@ == slack_missing_text(*self),
    {
        let mut s = String::from_str("net ");
        s.append(self.net.as_str());
        s.append(if self.is_update { ": no captured updateSlacks slack \u{2014} not bound" } else { ": no captured slack \u{2014} not bound" });
        s
    }
}

/// Whether a net is the first that is routed and has no captured slack.
pub open spec fn is_first_slackless<T>(nets: Seq<RouterNet>, v: Seq<NetSlack<T>>, k: int) -> bool {
    &&& 0 <= k < nets.len()
    &&& !nets[k].is_local && slack_at(v, nets[k].name@, 0) is None
    &&& forall|j: int| 0 <= j < k ==> (#[trigger] nets[j]).is_local || slack_at(v, nets[j].name@, 0) is Some
}

/// The slacks of the nets in one call; a local net without one, whose slack is never read, gets `zero`.
/// Refused at the first routed net without one.
pub fn captured_slacks<T: Copy>(nets: &Vec<RouterNet>, v: &Vec<NetSlack<T>>, is_update: bool, zero: T) -> (r: Result<Vec<T>, SlackMissing>)
    ensures
        match r {
            Ok(s) => {
                &&& s@.len() == nets@.len()
                &&& forall|k: int| 0 <= k < nets@.len() ==> (match slack_at(v@, (#[trigger] nets@[k]).name@, 0) {
                    Some(t) => s@[k] == t,
                    None => nets@[k].is_local && s@[k] == zero,
                })
            },
            Err(e) => exists|k: int| #[trigger] is_first_slackless(nets@, v@, k) && e.net@ == nets@[k].name@ && e.is_update == is_update,
        },
{
    let mut out: Vec<T> = Vec::new();
    let mut k: usize = 0;
    while k < nets.len()
        invariant
            k <= nets@.len(),
            out@.len() == k,
            forall|j: int| 0 <= j < k ==> (match slack_at(v@, (#[trigger] nets@[j]).name@, 0) {
                Some(t) => out@[j] == t,
                None => nets@[j].is_local && out@[j] == zero,
            }),
        decreases nets@.len() - k,
    {
        let n = &nets[k];
        let mut m: usize = 0;
        while m < v.len() && !same_text(v[m].net.as_str(), n.name.as_str())
            invariant
                m <= v@.len(),
                slack_at(v@, n.name@, m as int) == slack_at(v@, n.name@, 0),
            decreases v@.len() - m,
        {
            m += 1;
        }
        if m < v.len() {
            out.push(v[m].slack);
        } else if n.is_local {
            out.push(zero);
        } else {
            assert(is_first_slackless(nets@, v@, k as int));
            return Err(SlackMissing { net: String::from_str(n.name.as_str()), is_update });
        }
        k += 1;
    }
    Ok(out)
}

/// Refuses pricing by resistance where a net has a rule of its own.
pub fn refuses_resistance(nets: &Vec<RouterNet>, resistance_aware: bool) -> (r: Result<(), String>)
    ensures
        r is Err <==> (resistance_aware && exists|k: int| 0 <= k < nets@.len() && (#[trigger] nets@[k]).has_ndr),
        r matches Err(e) ==> e@ == "resistance-aware routing of a net with an NDR: the per-layer NDR width is not wired"@,
{
    if !resistance_aware {
        return Ok(());
    }
    let mut k: usize = 0;
    while k < nets.len()
        invariant
            resistance_aware,
            k <= nets@.len(),
            forall|j: int| 0 <= j < k ==> !(#[trigger] nets@[j]).has_ndr,
        decreases nets@.len() - k,
    {
        if nets[k].has_ndr {
            assert(nets@[k as int].has_ndr);
            return Err(String::from_str("resistance-aware routing of a net with an NDR: the per-layer NDR width is not wired"));
        }
        k += 1;
    }
    Ok(())
}


// ---- the nets that the router receives ----

/// A net as it was found, in the order in which nets are received.
#[derive(Debug)]
pub struct FoundNet {
    pub name: String,
    pub pins: Vec<NetPin>,
    pub has_wire: bool,
    pub wires: i64,
    pub vias: i64,
    /// Whether the router receives the net.
    pub is_made: bool,
    /// The tracks that an edge costs under the net's rule.
    pub consumption: u32,
}

/// A net that cannot be received.
#[derive(Debug)]
pub enum FoundNetError {
    /// Its wire is vias alone.
    ViaOnly { net: String },
    /// Its rule costs more tracks per edge than can be counted.
    Consumption { tracks: u32 },
}

/// What is said of it.
pub open spec fn found_error_text(e: FoundNetError) -> Seq<char> {
    match e {
        FoundNetError::ViaOnly { net } => "net "@ + net@ + ": a via-only wire \u{2014} hasStackedVias' via points are not wired"@,
        FoundNetError::Consumption { tracks } => "[ERROR GRT-0272] NDR consumption "@ + dec(tracks as int) + " exceeds 127 and is unsupported"@,
    }
}

impl FoundNetError {
    /// What is said of it.
    pub fn message(&self) -> (s: String)
        ensures
            s@ == found_error_text(*self),
    {
        match self {
            FoundNetError::ViaOnly { net } => {
                let mut s = String::from_str("net ");
                s.append(net.as_str());
                s.append(": a via-only wire \u{2014} hasStackedVias' via points are not wired");
                s
            },
            FoundNetError::Consumption { tracks } => {
                let mut s = String::from_str("[ERROR GRT-0272] NDR consumption ");
                push_nat(&mut s, *tracks as u64);
                s.append(" exceeds 127 and is unsupported");
                s
            },
        }
    }
}

/// A net that the router receives.
#[derive(Debug, Clone, Copy, PartialEq, Eq, Structural)]
pub struct ReceivedNet {
    pub place: usize,
    pub is_local: bool,
    pub edge_cost: i8,
}

/// The most tracks that an edge may cost.
pub const MAX_CONSUMPTION: u32 = 127;

pub open spec fn has_only_vias(n: FoundNet) -> bool {
    n.has_wire && n.wires == 0 && n.vias > 0
}

pub open spec fn stops(n: FoundNet) -> bool {
    has_only_vias(n) || (n.is_made && n.consumption > MAX_CONSUMPTION)
}

/// Whether all pins stand at one place of the grid.
pub open spec fn at_one_place(pins: Seq<NetPin>) -> bool {
    forall|i: int, j: int| 0 <= i < pins.len() && 0 <= j < pins.len() ==> (#[trigger] pins[i]).on_grid == (#[trigger] pins[j]).on_grid
}

/// Those of the first `n` nets that the router receives.
pub open spec fn received(nets: Seq<FoundNet>, n: int) -> Seq<ReceivedNet>
    decreases n,
{
    if n <= 0 {
        Seq::empty()
    } else if nets[n - 1].is_made {
        received(nets, n - 1).push(ReceivedNet { place: (n - 1) as usize, is_local: at_one_place(nets[n - 1].pins@), edge_cost: nets[n - 1].consumption as i8 })
    } else {
        received(nets, n - 1)
    }
}

/// Whether a net is the first that cannot be received.
pub open spec fn is_first_stop(nets: Seq<FoundNet>, k: int) -> bool {
    0 <= k < nets.len() && stops(nets[k]) && forall|j: int| 0 <= j < k ==> !stops(#[trigger] nets[j])
}

/// Which nets the router receives, in order, whether each is local, and what an edge costs it. Refused at the
/// first net whose wire is vias alone or whose rule costs more than can be counted.
pub fn setup_nets(nets: &Vec<FoundNet>) -> (r: Result<Vec<ReceivedNet>, FoundNetError>)
    ensures
        match r {
            Ok(v) => v@ == received(nets@, nets@.len() as int) && forall|k: int| 0 <= k < nets@.len() ==> !stops(#[trigger] nets@[k]),
            Err(FoundNetError::ViaOnly { net }) => exists|k: int| #[trigger] is_first_stop(nets@, k) && has_only_vias(nets@[k]) && net@ == nets@[k].name@,
            Err(FoundNetError::Consumption { tracks }) => exists|k: int| #[trigger] is_first_stop(nets@, k) && !has_only_vias(nets@[k]) && tracks == nets@[k].consumption,
        },
{
    let mut out: Vec<ReceivedNet> = Vec::new();
    let mut k: usize = 0;
    while k < nets.len()
        invariant
            k <= nets@.len(),
            out@ == received(nets@, k as int),
            forall|j: int| 0 <= j < k ==> !stops(#[trigger] nets@[j]),
        decreases nets@.len() - k,
    {
        let n = &nets[k];
        if is_via_only(n.has_wire, n.wires, n.vias) {
            assert(is_first_stop(nets@, k as int));
            return Err(FoundNetError::ViaOnly { net: String::from_str(n.name.as_str()) });
        }
        if n.is_made {
            if n.consumption > MAX_CONSUMPTION {
                assert(is_first_stop(nets@, k as int));
                return Err(FoundNetError::Consumption { tracks: n.consumption });
            }
            out.push(ReceivedNet { place: k, is_local: is_local(n.pins.as_slice()), edge_cost: n.consumption as i8 });
        }
        k += 1;
    }
    Ok(out)
}

/// An edge that a pad's or a macro's pin faces: from a cell to its neighbour, on a routing level.
#[derive(Debug, Clone, Copy, PartialEq, Eq, Structural)]
pub struct FacedEdge {
    pub x1: i32,
    pub y1: i32,
    pub x2: i32,
    pub y2: i32,
    pub layer: i32,
}

/// The edges with one track more on each of the first `n` that are faced.
pub open spec fn access_added(v: EdgesView, edges: Seq<FacedEdge>, n: int) -> EdgesView
    decreases n,
{
    if n <= 0 {
        v
    } else {
        let w = access_added(v, edges, n - 1);
        let f = edges[n - 1];
        let h = f.y1 == f.y2;
        adjusted(w, h, f.x1 as int, f.y1 as int, f.layer as int, wrapped(w.e3[(h, f.layer - 1, f.x1 as int, f.y1 as int)].cap + 1), false)
    }
}

/// Gives each edge that a pad's or a macro's pin faces one track more.
pub fn add_resources_for_pin_access(e: &mut RouterEdges, edges: &Vec<FacedEdge>)
    requires
        old(e).wf(),
        forall|k: int| 0 <= k < edges@.len() ==> {
            &&& (#[trigger] edges@[k]).x1 == edges@[k].x2 || edges@[k].y1 == edges@[k].y2
            &&& old(e).holds_tile((edges@[k].x1, edges@[k].y1, edges@[k].layer))
        },
    ensures
        final(e).wf(),
        final(e)@ == access_added(old(e)@, edges@, edges@.len() as int),
{
    let ghost v = e@;
    let mut k: usize = 0;
    while k < edges.len()
        invariant
            k <= edges@.len(),
            e.wf(),
            old(e).wf(),
            e.x_grid == old(e).x_grid && e.y_grid == old(e).y_grid && e.num_layers == old(e).num_layers,
            forall|k: int| 0 <= k < edges@.len() ==> {
                &&& (#[trigger] edges@[k]).x1 == edges@[k].x2 || edges@[k].y1 == edges@[k].y2
                &&& old(e).holds_tile((edges@[k].x1, edges@[k].y1, edges@[k].layer))
            },
            v == old(e)@,
            e@ == access_added(v, edges@, k as int),
        decreases edges@.len() - k,
    {
        let f = edges[k];
        assert(edges@[k as int].x1 == edges@[k as int].x2 || edges@[k as int].y1 == edges@[k as int].y2);
        let ghost w = e@;
        let cap: i32 = e.get_edge_capacity(f.x1, f.y1, f.x2, f.y2, f.layer);
        e.add_adjustment(f.x1, f.y1, f.x2, f.y2, f.layer, wrap(cap as i64 + 1), false);
        assert(e@.x_grid == w.x_grid && e@.y_grid == w.y_grid && e@.num_layers == w.num_layers);
        k += 1;
    }
}

/// The nets routed are all but the local ones, in order.
pub proof fn every_net_that_is_not_local_is_routed(nets: Seq<RouterNet>, n: int)
    requires
        0 <= n,
    ensures
        routed_ids(nets, n) == all_of(
            n,
            |k: int| if !nets[k].is_local { seq![k as usize] } else { Seq::empty() },
        ),
    decreases n,
{
    let f = |k: int| if !nets[k].is_local { seq![k as usize] } else { Seq::empty() };
    if n > 0 {
        every_net_that_is_not_local_is_routed(nets, n - 1);
        lemma_all_next(n - 1, f);
    } else {
        lemma_all_none(f);
    }
    assert(routed_ids(nets, n) =~= all_of(n, f));
}

/// The nets received are those that were made, in order, each with its place, whether its pins
/// are at one place, and its cost.
pub proof fn every_net_made_is_received(nets: Seq<FoundNet>, n: int)
    requires
        0 <= n,
    ensures
        received(nets, n) == all_of(
            n,
            |k: int| if nets[k].is_made { seq![ReceivedNet { place: k as usize, is_local: at_one_place(nets[k].pins@), edge_cost: nets[k].consumption as i8 }] } else { Seq::empty() },
        ),
    decreases n,
{
    let f = |k: int| if nets[k].is_made { seq![ReceivedNet { place: k as usize, is_local: at_one_place(nets[k].pins@), edge_cost: nets[k].consumption as i8 }] } else { Seq::empty() };
    if n > 0 {
        every_net_made_is_received(nets, n - 1);
        lemma_all_next(n - 1, f);
    } else {
        lemma_all_none(f);
    }
    assert(received(nets, n) =~= all_of(n, f));
}

/// A name is found at its first place, and wherever it stands at all.
pub proof fn a_name_is_found_where_it_first_stands(names: Seq<String>, name: Seq<char>, k: int)
    requires
        0 <= k <= names.len(),
    ensures
        is_first_of(name_at(names, name, k), k, names.len() as int, |i: int| names[i]@ == name),
    decreases names.len() - k,
{
    if k < names.len() {
        a_name_is_found_where_it_first_stands(names, name, k + 1);
    }
}

/// A box around points holds each of them, and no smaller box does: every side is touched by one of them.
pub proof fn a_box_is_the_least_around_its_points(pts: Seq<(i32, i32)>)
    requires
        pts.len() > 0,
    ensures
        box_around(pts) is Some,
        ({
            let (a, b, c, d) = box_around(pts)->0;
            &&& forall|i: int| 0 <= i < pts.len() ==> a <= (#[trigger] pts[i]).0 <= c && b <= pts[i].1 <= d
            &&& exists|i: int| 0 <= i < pts.len() && (#[trigger] pts[i]).0 == a
            &&& exists|i: int| 0 <= i < pts.len() && (#[trigger] pts[i]).1 == b
            &&& exists|i: int| 0 <= i < pts.len() && (#[trigger] pts[i]).0 == c
            &&& exists|i: int| 0 <= i < pts.len() && (#[trigger] pts[i]).1 == d
        }),
    decreases pts.len(),
{
    let n = pts.len() - 1;
    let s = pts.drop_last();
    let (a, b, c, d) = box_around(pts)->0;
    assert(pts[n] == pts.last());
    if n > 0 {
        a_box_is_the_least_around_its_points(s);
        let (a0, b0, c0, d0) = box_around(s)->0;
        let i = choose|i: int| 0 <= i < s.len() && (#[trigger] s[i]).0 == a0;
        assert(pts[i].0 == a0);
        let i = choose|i: int| 0 <= i < s.len() && (#[trigger] s[i]).1 == b0;
        assert(pts[i].1 == b0);
        let i = choose|i: int| 0 <= i < s.len() && (#[trigger] s[i]).0 == c0;
        assert(pts[i].0 == c0);
        let i = choose|i: int| 0 <= i < s.len() && (#[trigger] s[i]).1 == d0;
        assert(pts[i].1 == d0);
        assert forall|i: int| 0 <= i < pts.len() implies a <= (#[trigger] pts[i]).0 <= c && b <= pts[i].1 <= d by {
            if i < n {
                assert(s[i] == pts[i]);
            }
        }
    } else {
        assert(box_around(s) is None);
    }
}

} // verus!
