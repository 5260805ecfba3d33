//! The nets a clock network reaches.
//!
//! A breadth-first search over the timing graph from each clock's source pins. From a pin the search
//! follows its net, from a driver to each load, and the combinational arcs of its cell, but never
//! into a clock's source pin. The clock nets are the nets of every pin visited.
//!
//! Refused: a net with ten drivers or more, a source pin without a net, a cell on the way whose latch
//! roles may be inferred, and a cycle among the edges followed.

use crate::lists::{all_of, count_of, is_last_of, lemma_all_next, lemma_all_none, lemma_count_next, lemma_count_none};
use vstd::prelude::*;

verus! {

/// The netlist as the search sees it. Pins and nets are numbered from 0, pins in their order.
#[derive(Debug)]
pub struct ClkNetlist {
    /// Each net's pins, each with whether it drives the net.
    pub nets: Vec<Vec<(usize, bool)>>,
    /// Each pin's combinational arcs, by the pin they lead to.
    pub arcs: Vec<Vec<usize>>,
    /// Whether the latch roles of a pin's cell may be inferred.
    pub inferred: Vec<bool>,
    /// The clocks' source pins, a set: each once, ascending.
    pub sources: Vec<usize>,
}

/// Why a clock network is refused.
#[derive(Debug, Clone, Copy, PartialEq, Eq, Structural)]
pub enum ClkNetworkError {
    TooManyDrivers { net: usize, drivers: usize },
    UnconnectedSource { pin: usize },
    InferredLatch { pin: usize },
    Loop { pin: usize },
}

/// How many drivers a net may have.
pub const DRIVER_LIMIT: usize = 10;

/// Whether numbers stand in ascending order, each once.
#[verifier::opaque]
pub open spec fn ascending(s: Seq<usize>) -> bool {
    forall|i: int, j: int| 0 <= i < j < s.len() ==> #[trigger] s[i] < #[trigger] s[j]
}

impl ClkNetlist {
    /// The number of pins.
    pub open spec fn pins(&self) -> int {
        self.arcs@.len() as int
    }

    pub open spec fn wf(&self) -> bool {
        &&& self.inferred@.len() == self.arcs@.len()
        &&& forall|n: int, k: int| 0 <= n < self.nets@.len() && 0 <= k < self.nets@[n]@.len() ==> (#[trigger] self.nets@[n]@[k]).0 < self.pins()
        &&& forall|p: int, k: int| 0 <= p < self.pins() && 0 <= k < self.arcs@[p]@.len() ==> #[trigger] self.arcs@[p]@[k] < self.pins()
        &&& forall|k: int| 0 <= k < self.sources@.len() ==> #[trigger] self.sources@[k] < self.pins()
        &&& ascending(self.sources@)
    }
}

/// The number of drivers among the first `n` pins of a net.
pub open spec fn driver_count(net: Seq<(usize, bool)>, n: int) -> int
    decreases n,
{
    if n <= 0 { 0 } else { driver_count(net, n - 1) + (if net[n - 1].1 { 1int } else { 0int }) }
}

/// Whether a net has too many drivers.
pub open spec fn crowded(net: Seq<(usize, bool)>) -> bool {
    driver_count(net, net.len() as int) >= DRIVER_LIMIT
}

/// Whether a net holds a pin.
pub open spec fn holds(net: Seq<(usize, bool)>, p: int) -> bool {
    exists|k: int| 0 <= k < net.len() && (#[trigger] net[k]).0 == p
}

/// The last of the first `n` nets that holds a pin.
pub open spec fn net_of(nets: Seq<Vec<(usize, bool)>>, p: int, n: int) -> Option<int>
    decreases n,
{
    if n <= 0 {
        None
    } else if holds(nets[n - 1]@, p) {
        Some(n - 1)
    } else {
        net_of(nets, p, n - 1)
    }
}

/// A pin's net.
pub open spec fn pin_net(g: ClkNetlist, p: int) -> Option<int> {
    net_of(g.nets@, p, g.nets@.len() as int)
}

/// Whether a pin drives, or loads, a net.
pub open spec fn on_net(net: Seq<(usize, bool)>, p: int, drives: bool) -> bool {
    exists|k: int| 0 <= k < net.len() && (#[trigger] net[k]).0 == p && net[k].1 == drives
}

/// Whether `p` drives its net and `q` loads it.
pub open spec fn wire_edge(g: ClkNetlist, p: int, q: int) -> bool {
    pin_net(g, p) matches Some(n) && on_net(g.nets@[n]@, p, true) && on_net(g.nets@[n]@, q, false)
}

/// Whether a combinational arc leads from `p` to `q`.
pub open spec fn arc_edge(g: ClkNetlist, p: int, q: int) -> bool {
    exists|k: int| 0 <= k < g.arcs@[p]@.len() && #[trigger] g.arcs@[p]@[k] == q
}

/// Whether a pin is a clock's source.
pub open spec fn is_source(g: ClkNetlist, p: int) -> bool {
    exists|k: int| 0 <= k < g.sources@.len() && #[trigger] g.sources@[k] == p
}

/// Whether the search goes from `p` to `q`.
pub open spec fn leads(g: ClkNetlist, p: int, q: int) -> bool {
    &&& 0 <= p < g.pins()
    &&& 0 <= q < g.pins()
    &&& (wire_edge(g, p, q) && q != p) || arc_edge(g, p, q)
    &&& !is_source(g, q)
}

/// Whether a list of pins is a way of the search from a source.
pub open spec fn is_way(g: ClkNetlist, w: Seq<int>) -> bool {
    &&& w.len() > 0
    &&& is_source(g, w[0])
    &&& forall|i: int| 0 <= i < w.len() - 1 ==> leads(g, #[trigger] w[i], w[i + 1])
}

/// Whether the search visits a pin.
pub open spec fn reached(g: ClkNetlist, p: int) -> bool {
    exists|w: Seq<int>| #[trigger] is_way(g, w) && w.last() == p
}

/// Whether a pin's cell may have its latch roles inferred, and has arcs to follow.
pub open spec fn flagged(g: ClkNetlist, p: int) -> bool {
    g.inferred@[p] && g.arcs@[p]@.len() > 0
}

/// Whether an edge counts for the loop check: an arc, or a wire between pins visited.
pub open spec fn followed(g: ClkNetlist, p: int, q: int) -> bool {
    reached(g, p) && (arc_edge(g, p, q) || (wire_edge(g, p, q) && reached(g, q)))
}

/// Whether a pin lies on a cycle of the edges followed.
pub open spec fn on_loop(g: ClkNetlist, p: int) -> bool {
    exists|c: Seq<int>| #[trigger] is_loop(g, c) && c[0] == p
}

/// Whether a list of pins is a cycle of the edges followed.
pub open spec fn is_loop(g: ClkNetlist, c: Seq<int>) -> bool {
    &&& c.len() >= 2
    &&& c[0] == c.last()
    &&& forall|i: int| 0 <= i < c.len() - 1 ==> followed(g, #[trigger] c[i], c[i + 1])
}

// ---- the order in which the search meets pins ----

/// The pins met once `q` is come to: never into a source, and each pin once.
pub open spec fn come_to(g: ClkNetlist, met: Seq<usize>, q: usize) -> Seq<usize> {
    if is_source(g, q as int) || met.contains(q) { met } else { met.push(q) }
}

/// The pins met once the first `k` pins of a net are looked at from its driver `p`: its loads are come to.
pub open spec fn over_wires(g: ClkNetlist, met: Seq<usize>, net: Seq<(usize, bool)>, p: int, k: int) -> Seq<usize>
    decreases k,
{
    if k <= 0 {
        met
    } else {
        let before = over_wires(g, met, net, p, k - 1);
        if !net[k - 1].1 && net[k - 1].0 != p { come_to(g, before, net[k - 1].0) } else { before }
    }
}

/// The pins met once the first `k` arcs of a list are followed.
pub open spec fn over_arcs(g: ClkNetlist, met: Seq<usize>, arcs: Seq<usize>, k: int) -> Seq<usize>
    decreases k,
{
    if k <= 0 { met } else { come_to(g, over_arcs(g, met, arcs, k - 1), arcs[k - 1]) }
}

/// The pins met once the search goes on from `p`: the loads of the net that it drives, then its arcs.
pub open spec fn gone_on(g: ClkNetlist, met: Seq<usize>, p: int) -> Seq<usize> {
    let list = g.nets@[pin_net(g, p)->0]@;
    over_arcs(g, if drives(g, p) { over_wires(g, met, list, p, list.len() as int) } else { met }, g.arcs@[p]@, g.arcs@[p]@.len() as int)
}

/// The pins met once the search has gone on from the first `h` of them: the sources first.
pub open spec fn pins_met(g: ClkNetlist, h: int) -> Seq<usize>
    decreases h,
{
    if h <= 0 { g.sources@ } else { gone_on(g, pins_met(g, h - 1), pins_met(g, h - 1)[h - 1] as int) }
}

/// Whether `p` is the `h`-th pin met, and the first whose cell's latch roles may be inferred.
pub open spec fn flagged_at(g: ClkNetlist, p: int, h: int) -> bool {
    let met = pins_met(g, h);
    &&& 0 <= h < met.len()
    &&& met[h] == p
    &&& flagged(g, p)
    &&& forall|i: int| 0 <= i < h ==> !flagged(g, (#[trigger] met[i]) as int)
}

/// Whether `p` is the first pin met whose cell's latch roles may be inferred.
pub open spec fn first_flagged(g: ClkNetlist, p: int) -> bool {
    exists|h: int| #[trigger] flagged_at(g, p, h)
}

/// Whether a list goes on from another.
spec fn extends(long: Seq<usize>, short: Seq<usize>) -> bool {
    &&& short.len() <= long.len()
    &&& forall|i: int| 0 <= i < short.len() ==> #[trigger] long[i] == short[i]
}

proof fn lemma_wires_extend(g: ClkNetlist, met: Seq<usize>, net: Seq<(usize, bool)>, p: int, k: int)
    ensures
        extends(over_wires(g, met, net, p, k), met),
    decreases k,
{
    if k > 0 {
        lemma_wires_extend(g, met, net, p, k - 1);
    }
}

proof fn lemma_arcs_extend(g: ClkNetlist, met: Seq<usize>, arcs: Seq<usize>, k: int)
    ensures
        extends(over_arcs(g, met, arcs, k), met),
    decreases k,
{
    if k > 0 {
        lemma_arcs_extend(g, met, arcs, k - 1);
    }
}

proof fn lemma_met_extends(g: ClkNetlist, h: int, j: int)
    requires
        0 <= h <= j,
    ensures
        extends(pins_met(g, j), pins_met(g, h)),
    decreases j,
{
    if h < j {
        lemma_met_extends(g, h, j - 1);
        let met = pins_met(g, j - 1);
        let p = met[j - 1] as int;
        let list = g.nets@[pin_net(g, p)->0]@;
        lemma_wires_extend(g, met, list, p, list.len() as int);
        lemma_arcs_extend(g, if drives(g, p) { over_wires(g, met, list, p, list.len() as int) } else { met }, g.arcs@[p]@, g.arcs@[p]@.len() as int);
    }
}

/// One pin is the first that is met and flagged, and no other.
pub proof fn one_pin_is_flagged_first(g: ClkNetlist, p: int, q: int)
    requires
        first_flagged(g, p),
        first_flagged(g, q),
    ensures
        p == q,
{
    let h = choose|h: int| #[trigger] flagged_at(g, p, h);
    let j = choose|h: int| #[trigger] flagged_at(g, q, h);
    if h < j {
        lemma_met_extends(g, h, j);
        assert(pins_met(g, j)[h] == pins_met(g, h)[h]);
    }
    if j < h {
        lemma_met_extends(g, j, h);
        assert(pins_met(g, h)[j] == pins_met(g, j)[j]);
    }
}

// ---- the loop that the check meets first ----

/// The pins visited that the first `k` pins of a net load.
pub open spec fn loads_reached(g: ClkNetlist, net: Seq<(usize, bool)>, k: int) -> Seq<usize>
    decreases k,
{
    if k <= 0 {
        Seq::empty()
    } else {
        let before = loads_reached(g, net, k - 1);
        if !net[k - 1].1 && reached(g, net[k - 1].0 as int) { before.push(net[k - 1].0) } else { before }
    }
}

/// The pins that the edges followed from `p` lead to, in order: its arcs, then the loads of the net it drives.
pub open spec fn followed_pins(g: ClkNetlist, p: int) -> Seq<usize> {
    if reached(g, p) {
        let list = g.nets@[pin_net(g, p)->0]@;
        g.arcs@[p]@ + (if drives(g, p) { loads_reached(g, list, list.len() as int) } else { Seq::empty() })
    } else {
        Seq::empty()
    }
}

/// The lists of [`followed_pins`], by pin.
pub open spec fn all_followed(g: ClkNetlist) -> Seq<Seq<usize>> {
    Seq::new(g.pins() as nat, |p: int| followed_pins(g, p))
}

/// A depth-first search for a loop: the colour of every pin (0 new, 1 on the way, 2 done), the way with how far
/// each list on it is read, the next pin to start from, and the pin that closed a loop.
#[verifier::ext_equal]
pub struct LoopSearch {
    pub colour: Seq<u8>,
    pub way: Seq<(usize, usize)>,
    pub start: int,
    pub met: Option<usize>,
}

/// A search for a loop after one step more.
pub open spec fn loop_step(succ: Seq<Seq<usize>>, s: LoopSearch) -> LoopSearch {
    if s.met is Some {
        s
    } else if s.way.len() == 0 {
        if s.start >= succ.len() {
            s
        } else if s.colour[s.start] == 0 {
            LoopSearch { colour: s.colour.update(s.start, 1), way: seq![(s.start as usize, 0usize)], start: s.start + 1, ..s }
        } else {
            LoopSearch { start: s.start + 1, ..s }
        }
    } else {
        let (p, i) = s.way.last();
        let top = s.way.len() - 1;
        if i < succ[p as int].len() {
            let q = succ[p as int][i as int];
            let on = s.way.update(top, (p, (i + 1) as usize));
            if s.colour[q as int] == 1 {
                LoopSearch { met: Some(q), ..s }
            } else if s.colour[q as int] == 0 {
                LoopSearch { colour: s.colour.update(q as int, 1), way: on.push((q, 0usize)), ..s }
            } else {
                LoopSearch { way: on, ..s }
            }
        } else {
            LoopSearch { colour: s.colour.update(p as int, 2), way: s.way.drop_last(), ..s }
        }
    }
}

/// A search for a loop after `k` steps.
pub open spec fn loop_searched(succ: Seq<Seq<usize>>, k: nat) -> LoopSearch
    decreases k,
{
    if k == 0 {
        LoopSearch { colour: Seq::new(succ.len(), |i: int| 0u8), way: Seq::empty(), start: 0, met: None }
    } else {
        loop_step(succ, loop_searched(succ, (k - 1) as nat))
    }
}

/// Whether a search for a loop meets `q` first.
pub open spec fn meets_first(succ: Seq<Seq<usize>>, q: usize) -> bool {
    exists|k: nat| (#[trigger] loop_searched(succ, k)).met == Some(q)
}

proof fn lemma_met_stays(succ: Seq<Seq<usize>>, k: nat, j: nat)
    requires
        k <= j,
        loop_searched(succ, k).met is Some,
    ensures
        loop_searched(succ, j).met == loop_searched(succ, k).met,
    decreases j,
{
    if k < j {
        lemma_met_stays(succ, k, (j - 1) as nat);
    }
}

/// A search for a loop meets one pin first, and no other.
pub proof fn one_pin_closes_the_first_loop(succ: Seq<Seq<usize>>, q: usize, r: usize)
    requires
        meets_first(succ, q),
        meets_first(succ, r),
    ensures
        q == r,
{
    let k = choose|k: nat| (#[trigger] loop_searched(succ, k)).met == Some(q);
    let j = choose|k: nat| (#[trigger] loop_searched(succ, k)).met == Some(r);
    if k <= j {
        lemma_met_stays(succ, k, j);
    } else {
        lemma_met_stays(succ, j, k);
    }
}

/// Successor lists as sequences.
pub open spec fn lists(succ: Seq<Vec<usize>>) -> Seq<Seq<usize>> {
    succ.map_values(|l: Vec<usize>| l@)
}

// ---- cycles in a graph of successor lists ----

/// Whether `q` is a successor of `p`.
pub open spec fn succeeds(succ: Seq<Vec<usize>>, p: int, q: int) -> bool {
    0 <= p < succ.len() && exists|k: int| 0 <= k < succ[p]@.len() && #[trigger] succ[p]@[k] == q
}

/// Whether a list is a closed walk from `q` back to it.
pub open spec fn is_cycle(succ: Seq<Vec<usize>>, c: Seq<int>, q: int) -> bool {
    &&& c.len() >= 2
    &&& c[0] == q
    &&& c.last() == q
    &&& forall|i: int| 0 <= i < c.len() - 1 ==> succeeds(succ, #[trigger] c[i], c[i + 1])
}

/// Whether a node lies on a cycle.
pub open spec fn on_cycle(succ: Seq<Vec<usize>>, q: int) -> bool {
    exists|c: Seq<int>| is_cycle(succ, c, q)
}

/// Whether the nodes can be ranked so that each successor ranks below.
pub open spec fn has_ranking(succ: Seq<Vec<usize>>) -> bool {
    exists|rank: Seq<int>| ranked(succ, rank)
}

/// Whether each successor ranks below.
pub open spec fn ranked(succ: Seq<Vec<usize>>, rank: Seq<int>) -> bool {
    &&& rank.len() == succ.len()
    &&& forall|p: int, k: int| 0 <= p < succ.len() && 0 <= k < succ[p]@.len() ==> rank[(#[trigger] succ[p]@[k]) as int] < rank[p]
}

/// A graph whose successors rank below has no cycle.
pub proof fn ranked_graphs_have_no_cycle(succ: Seq<Vec<usize>>, rank: Seq<int>, c: Seq<int>, q: int)
    requires
        ranked(succ, rank),
    ensures
        !is_cycle(succ, c, q),
{
    if is_cycle(succ, c, q) {
        lemma_ranks_fall(succ, rank, c, c.len() - 1);
    }
}

proof fn lemma_ranks_fall(succ: Seq<Vec<usize>>, rank: Seq<int>, c: Seq<int>, i: int)
    requires
        ranked(succ, rank),
        0 < i < c.len(),
        forall|j: int| 0 <= j < c.len() - 1 ==> succeeds(succ, #[trigger] c[j], c[j + 1]),
    ensures
        rank[c[i]] < rank[c[0]],
    decreases i,
{
    assert(succeeds(succ, c[i - 1], c[i - 1 + 1]));
    if i > 1 {
        lemma_ranks_fall(succ, rank, c, i - 1);
    }
}

/// How many of the first `n` entries are 0.
pub open spec fn zeros(s: Seq<u8>, n: int) -> nat
    decreases n,
{
    if n <= 0 { 0 } else { zeros(s, n - 1) + (if s[n - 1] == 0 { 1nat } else { 0nat }) }
}

proof fn lemma_zeros_update(s: Seq<u8>, i: int, v: u8, n: int)
    requires
        0 <= i < s.len(),
        n <= s.len(),
    ensures
        v != 0 && s[i] == 0 && i < n ==> zeros(s.update(i, v), n) == zeros(s, n) - 1,
        v != 0 && s[i] != 0 ==> zeros(s.update(i, v), n) == zeros(s, n),
        i >= n ==> zeros(s.update(i, v), n) == zeros(s, n),
    decreases n,
{
    if n > 0 {
        lemma_zeros_update(s, i, v, n - 1);
    }
}

/// What is known while the graph is searched: finished nodes have finished successors of lower rank,
/// and the nodes on the stack form a walk.
spec fn search_state(succ: Seq<Vec<usize>>, colour: Seq<u8>, stack: Seq<(usize, usize)>, rank: Seq<int>, next: int) -> bool {
    &&& forall|p: int, k: int| 0 <= p < succ.len() && 0 <= k < succ[p]@.len() ==> #[trigger] succ[p]@[k] < succ.len()
    &&& colour.len() == succ.len()
    &&& rank.len() == succ.len()
    &&& forall|p: int| 0 <= p < succ.len() && colour[p] == 2 ==> (#[trigger] rank[p]) < next
    &&& forall|p: int, k: int| 0 <= p < succ.len() && colour[p] == 2 && 0 <= k < succ[p]@.len() ==> colour[(#[trigger] succ[p]@[k]) as int] == 2
        && rank[succ[p]@[k] as int] < rank[p]
    &&& forall|p: int| 0 <= p < succ.len() && #[trigger] colour[p] == 1 ==> exists|a: int| 0 <= a < stack.len() && (#[trigger] stack[a]).0 == p
    &&& forall|a: int| 0 <= a < stack.len() ==> {
        let (p, i) = #[trigger] stack[a];
        p < succ.len() && colour[p as int] == 1 && i <= succ[p as int]@.len()
    }
    &&& forall|a: int, b: int| 0 <= a < b < stack.len() ==> (#[trigger] stack[a]).0 != (#[trigger] stack[b]).0
    &&& forall|a: int| 0 <= a < stack.len() - 1 ==> (#[trigger] stack[a]).1 >= 1 && succ[stack[a].0 as int]@[stack[a].1 - 1] == stack[a + 1].0
    &&& forall|a: int, k: int| #![trigger stack[a], succ[stack[a].0 as int]@[k]]
        0 <= a < stack.len() && 0 <= k < stack[a].1 && (a == stack.len() - 1 || k < stack[a].1 - 1) ==> colour[succ[stack[a].0 as int]@[k] as int] == 2
}

/// A node on a cycle, by a depth-first search in three colours; `None` where there is no cycle.
fn find_cycle(succ: &Vec<Vec<usize>>) -> (r: Option<usize>)
    requires
        forall|p: int, k: int| 0 <= p < succ@.len() && 0 <= k < succ@[p]@.len() ==> #[trigger] succ@[p]@[k] < succ@.len(),
    ensures
        r matches Some(q) ==> on_cycle(succ@, q as int) && meets_first(lists(succ@), q),
        r is None ==> has_ranking(succ@),
{
    let n: usize = succ.len();
    let mut colour: Vec<u8> = crate::vecs::filled(0u8, n);
    let ghost mut rank: Seq<int> = Seq::new(n as nat, |i: int| 0int);
    let ghost mut next: int = 0;
    let ghost mut steps: nat = 0;
    let mut start: usize = 0;
    assert(loop_searched(lists(succ@), 0) =~= LoopSearch { colour: colour@, way: Seq::empty(), start: 0, met: None });
    while start < n
        invariant
            start <= n == succ@.len(),
            forall|p: int, k: int| 0 <= p < succ@.len() && 0 <= k < succ@[p]@.len() ==> #[trigger] succ@[p]@[k] < succ@.len(),
            search_state(succ@, colour@, Seq::empty(), rank, next),
            forall|p: int| 0 <= p < start ==> #[trigger] colour@[p] == 2,
            forall|p: int| 0 <= p < n ==> #[trigger] colour@[p] == 2 || colour@[p] == 0,
            loop_searched(lists(succ@), steps) == (LoopSearch { colour: colour@, way: Seq::empty(), start: start as int, met: None }),
        decreases n - start,
    {
        let ghost s0 = loop_searched(lists(succ@), steps);
        proof {
            steps = steps + 1;
            assert(loop_searched(lists(succ@), steps) == loop_step(lists(succ@), s0));
        }
        if colour[start] == 0 {
            let mut stack: Vec<(usize, usize)> = Vec::new();
            stack.push((start, 0));
            let ghost c0 = colour@;
            colour[start] = 1;
            proof {
                assert(stack@ =~= seq![(start, 0usize)]);
                assert(loop_searched(lists(succ@), steps) =~= LoopSearch { colour: colour@, way: stack@, start: start + 1, met: None });
                assert forall|p: int| 0 <= p < n && #[trigger] colour@[p] == 1 implies exists|a: int| 0 <= a < stack@.len() && (#[trigger] stack@[a]).0 == p by {
                    assert(p == start);
                    assert(stack@[0].0 == p);
                }
                assert forall|p: int, k: int| 0 <= p < n && colour@[p] == 2 && 0 <= k < succ@[p]@.len() implies colour@[(#[trigger] succ@[p]@[k]) as int] == 2
                    && rank[succ@[p]@[k] as int] < rank[p] by {
                    assert(c0[p] == 2);
                }
            }
            while stack.len() > 0
                invariant
                    n == succ@.len(),
                    start < n,
                    forall|p: int, k: int| 0 <= p < succ@.len() && 0 <= k < succ@[p]@.len() ==> #[trigger] succ@[p]@[k] < succ@.len(),
                    search_state(succ@, colour@, stack@, rank, next),
                    colour@[start as int] != 0,
                    forall|p: int| 0 <= p < start ==> #[trigger] colour@[p] == 2,
                    forall|p: int| 0 <= p < n ==> #[trigger] colour@[p] <= 2,
                    loop_searched(lists(succ@), steps) == (LoopSearch { colour: colour@, way: stack@, start: start + 1, met: None }),
                decreases zeros(colour@, n as int), stack@.len(), (if stack@.len() == 0 { 0 } else { succ@[stack@.last().0 as int]@.len() - stack@.last().1 }),
            {
                let top: usize = stack.len() - 1;
                let (p, i) = stack[top];
                let ghost (st, co) = (stack@, colour@);
                let ghost s1 = loop_searched(lists(succ@), steps);
                proof {
                    steps = steps + 1;
                    assert(loop_searched(lists(succ@), steps) == loop_step(lists(succ@), s1));
                    assert(lists(succ@)[p as int] == succ@[p as int]@);
                }
                if i < succ[p].len() {
                    let q: usize = succ[p][i];
                    stack[top] = (p, i + 1);
                    if colour[q] == 1 {
                        proof {
                            let a = choose|a: int| 0 <= a < st.len() && (#[trigger] st[a]).0 == q;
                            let c = Seq::new((st.len() - a + 1) as nat, |k: int| if a + k < st.len() { st[a + k].0 as int } else { q as int });
                            assert forall|k: int| 0 <= k < c.len() - 1 implies succeeds(succ@, #[trigger] c[k], c[k + 1]) by {
                                if a + k + 1 < st.len() {
                                    assert(st[a + k].1 >= 1);
                                    assert(succ@[st[a + k].0 as int]@[st[a + k].1 - 1] == st[a + k + 1].0);
                                } else {
                                    assert(succ@[p as int]@[i as int] == q);
                                }
                            }
                            assert(is_cycle(succ@, c, q as int));
                            assert(loop_searched(lists(succ@), steps).met == Some(q));
                        }
                        return Some(q);
                    } else if colour[q] == 0 {
                        colour[q] = 1;
                        stack.push((q, 0));
                        proof {
                            lemma_zeros_update(co, q as int, 1, n as int);
                            lemma_pushed(succ@, co, colour@, st, stack@, rank, next, q);
                        }
                    } else {
                        proof {
                            lemma_advanced(succ@, colour@, st, stack@, rank, next);
                        }
                    }
                } else {
                    stack.pop();
                    colour[p] = 2;
                    proof {
                        lemma_zeros_update(co, p as int, 2, n as int);
                        let r1 = rank.update(p as int, next);
                        lemma_finished(succ@, co, colour@, st, stack@, rank, r1, next);
                        rank = r1;
                        next = next + 1;
                    }
                }
                assert(loop_searched(lists(succ@), steps) =~= LoopSearch { colour: colour@, way: stack@, start: start + 1, met: None });
            }
            assert(stack@ =~= Seq::empty());
            proof {
                assert forall|a: int| 0 <= a < n implies #[trigger] colour@[a] == 2 || colour@[a] == 0 by {
                    if colour@[a] == 1 {
                        let b = choose|b: int| 0 <= b < stack@.len() && (#[trigger] stack@[b]).0 == a;
                    }
                }
            }
        }
        start += 1;
    }
    assert(ranked(succ@, rank));
    None
}

proof fn lemma_pushed(
    succ: Seq<Vec<usize>>, c0: Seq<u8>, c1: Seq<u8>, s0: Seq<(usize, usize)>, s1: Seq<(usize, usize)>, rank: Seq<int>, next: int, q: usize,
)
    requires
        search_state(succ, c0, s0, rank, next),
        s0.len() > 0,
        q < succ.len(),
        s0.last().1 < succ[s0.last().0 as int]@.len(),
        succ[s0.last().0 as int]@[s0.last().1 as int] == q,
        c0[q as int] == 0,
        c1 == c0.update(q as int, 1u8),
        s1 == s0.update(s0.len() - 1, (s0.last().0, (s0.last().1 + 1) as usize)).push((q, 0usize)),
        s0.last().1 + 1 <= usize::MAX,
    ensures
        search_state(succ, c1, s1, rank, next),
{
    let top = s0.len() - 1;
    let mid = s0.update(top, (s0.last().0, (s0.last().1 + 1) as usize));
    assert forall|p: int, k: int| 0 <= p < succ.len() && c1[p] == 2 && 0 <= k < succ[p]@.len() implies c1[(#[trigger] succ[p]@[k]) as int] == 2
        && rank[succ[p]@[k] as int] < rank[p] by {
        assert(c0[p] == 2);
    }
    assert forall|p: int| 0 <= p < succ.len() && #[trigger] c1[p] == 1 implies exists|a: int| 0 <= a < s1.len() && (#[trigger] s1[a]).0 == p by {
        if p == q {
            assert(s1[top + 1].0 == p);
        } else {
            assert(c0[p] == 1);
            let a = choose|a: int| 0 <= a < s0.len() && (#[trigger] s0[a]).0 == p;
            assert(s1[a].0 == p);
        }
    }
    assert forall|a: int, b: int| 0 <= a < b < s1.len() implies (#[trigger] s1[a]).0 != (#[trigger] s1[b]).0 by {
        assert(s1[a].0 == s0[a].0);
        if b <= top {
            assert(s1[b].0 == s0[b].0);
            assert(s0[a].0 != s0[b].0);
        } else {
            assert(c0[s0[a].0 as int] == 1);
        }
    }
    assert forall|a: int| 0 <= a < s1.len() implies {
        let (p, i) = #[trigger] s1[a];
        p < succ.len() && c1[p as int] == 1 && i <= succ[p as int]@.len()
    } by {
        if a <= top {
            assert(s1[a].0 == s0[a].0);
            assert(c0[s0[a].0 as int] == 1);
        }
    }
    assert forall|a: int| 0 <= a < s1.len() - 1 implies (#[trigger] s1[a]).1 >= 1 && succ[s1[a].0 as int]@[s1[a].1 - 1] == s1[a + 1].0 by {
        if a < top {
            assert(s1[a] == s0[a]);
            assert(s1[a + 1].0 == s0[a + 1].0);
        }
    }
    assert forall|a: int, k: int| #![trigger s1[a], succ[s1[a].0 as int]@[k]]
        0 <= a < s1.len() && 0 <= k < s1[a].1 && (a == s1.len() - 1 || k < s1[a].1 - 1) implies c1[succ[s1[a].0 as int]@[k] as int] == 2 by {
        if a < top {
            assert(s1[a] == s0[a]);
            assert(c0[succ[s0[a].0 as int]@[k] as int] == 2);
        } else if a == top {
            assert(s1[a].0 == s0[a].0);
            assert(c0[succ[s0[a].0 as int]@[k] as int] == 2);
        }
    }
}

proof fn lemma_advanced(
    succ: Seq<Vec<usize>>, c: Seq<u8>, s0: Seq<(usize, usize)>, s1: Seq<(usize, usize)>, rank: Seq<int>, next: int,
)
    requires
        search_state(succ, c, s0, rank, next),
        s0.len() > 0,
        s0.last().1 < succ[s0.last().0 as int]@.len(),
        c[succ[s0.last().0 as int]@[s0.last().1 as int] as int] == 2,
        s0.last().1 + 1 <= usize::MAX,
        s1 == s0.update(s0.len() - 1, (s0.last().0, (s0.last().1 + 1) as usize)),
    ensures
        search_state(succ, c, s1, rank, next),
{
    let top = s0.len() - 1;
    assert forall|p: int| 0 <= p < succ.len() && #[trigger] c[p] == 1 implies exists|a: int| 0 <= a < s1.len() && (#[trigger] s1[a]).0 == p by {
        let a = choose|a: int| 0 <= a < s0.len() && (#[trigger] s0[a]).0 == p;
        assert(s1[a].0 == p);
    }
    assert forall|a: int, b: int| 0 <= a < b < s1.len() implies (#[trigger] s1[a]).0 != (#[trigger] s1[b]).0 by {
        assert(s0[a].0 != s0[b].0);
    }
    assert forall|a: int| 0 <= a < s1.len() - 1 implies (#[trigger] s1[a]).1 >= 1 && succ[s1[a].0 as int]@[s1[a].1 - 1] == s1[a + 1].0 by {
        assert(s1[a] == s0[a]);
        assert(s1[a + 1].0 == s0[a + 1].0);
    }
    assert forall|a: int| 0 <= a < s1.len() implies {
        let (p, i) = #[trigger] s1[a];
        p < succ.len() && c[p as int] == 1 && i <= succ[p as int]@.len()
    } by {
        assert(c[s0[a].0 as int] == 1);
    }
    assert forall|a: int, k: int| #![trigger s1[a], succ[s1[a].0 as int]@[k]]
        0 <= a < s1.len() && 0 <= k < s1[a].1 && (a == s1.len() - 1 || k < s1[a].1 - 1) implies c[succ[s1[a].0 as int]@[k] as int] == 2 by {
        assert(s1[a].0 == s0[a].0);
        if a < top || k < s0[a].1 {
            assert(c[succ[s0[a].0 as int]@[k] as int] == 2);
        }
    }
}

proof fn lemma_finished(
    succ: Seq<Vec<usize>>, c0: Seq<u8>, c1: Seq<u8>, s0: Seq<(usize, usize)>, s1: Seq<(usize, usize)>, r0: Seq<int>, r1: Seq<int>, next: int,
)
    requires
        search_state(succ, c0, s0, r0, next),
        s0.len() > 0,
        s0.last().1 == succ[s0.last().0 as int]@.len(),
        c1 == c0.update(s0.last().0 as int, 2u8),
        s1 == s0.drop_last(),
        r1 == r0.update(s0.last().0 as int, next),
    ensures
        search_state(succ, c1, s1, r1, next + 1),
{
    let top = s0.len() - 1;
    let done = s0[top].0 as int;
    assert(c0[done] == 1);
    assert forall|p: int, k: int| 0 <= p < succ.len() && c1[p] == 2 && 0 <= k < succ[p]@.len() implies c1[(#[trigger] succ[p]@[k]) as int] == 2
        && r1[succ[p]@[k] as int] < r1[p] by {
        let w = succ[p]@[k] as int;
        if p == done {
            assert(c0[succ[s0[top].0 as int]@[k] as int] == 2);
            assert(r0[w] < next);
        } else {
            assert(c0[p] == 2);
            assert(c0[w] == 2 && r0[w] < r0[p]);
        }
    }
    assert forall|p: int| 0 <= p < succ.len() && #[trigger] c1[p] == 1 implies exists|a: int| 0 <= a < s1.len() && (#[trigger] s1[a]).0 == p by {
        assert(c0[p] == 1);
        let a = choose|a: int| 0 <= a < s0.len() && (#[trigger] s0[a]).0 == p;
        assert(a != top);
        assert(s1[a].0 == p);
    }
    assert forall|a: int| 0 <= a < s1.len() implies {
        let (p, i) = #[trigger] s1[a];
        p < succ.len() && c1[p as int] == 1 && i <= succ[p as int]@.len()
    } by {
        assert(s1[a] == s0[a]);
        assert(s0[a].0 != s0[top].0);
        assert(c0[s0[a].0 as int] == 1);
    }
    assert forall|a: int, b: int| 0 <= a < b < s1.len() implies (#[trigger] s1[a]).0 != (#[trigger] s1[b]).0 by {
        assert(s0[a].0 != s0[b].0);
    }
    assert forall|a: int| 0 <= a < s1.len() - 1 implies (#[trigger] s1[a]).1 >= 1 && succ[s1[a].0 as int]@[s1[a].1 - 1] == s1[a + 1].0 by {
        assert(s1[a] == s0[a]);
        assert(s1[a + 1] == s0[a + 1]);
    }
    assert forall|a: int, k: int| #![trigger s1[a], succ[s1[a].0 as int]@[k]]
        0 <= a < s1.len() && 0 <= k < s1[a].1 && (a == s1.len() - 1 || k < s1[a].1 - 1) implies c1[succ[s1[a].0 as int]@[k] as int] == 2 by {
        assert(s1[a] == s0[a]);
        if k < s0[a].1 - 1 {
            assert(c0[succ[s0[a].0 as int]@[k] as int] == 2);
        } else {
            assert(succ[s0[a].0 as int]@[s0[a].1 - 1] == s0[a + 1].0);
        }
    }
    assert forall|p: int| 0 <= p < succ.len() && c1[p] == 2 implies (#[trigger] r1[p]) < next + 1 by {
        if p != done {
            assert(c0[p] == 2);
            assert(r0[p] < next);
        }
    }
}

// ---- the search ----

/// A net number as an integer.
pub open spec fn as_net(n: Option<usize>) -> Option<int> {
    match n {
        Some(k) => Some(k as int),
        None => None,
    }
}

/// Whether a pin drives its net.
pub open spec fn drives(g: ClkNetlist, p: int) -> bool {
    pin_net(g, p) matches Some(n) && on_net(g.nets@[n]@, p, true)
}

/// Each pin's net, and whether it drives it.
fn pin_tables(g: &ClkNetlist) -> (r: (Vec<Option<usize>>, Vec<bool>))
    requires
        g.wf(),
    ensures
        r.0@.len() == g.pins(),
        r.1@.len() == g.pins(),
        forall|p: int| 0 <= p < g.pins() ==> as_net(#[trigger] r.0@[p]) == pin_net(*g, p),
        forall|p: int| 0 <= p < g.pins() ==> #[trigger] r.1@[p] == drives(*g, p),
{
    let pins: usize = g.arcs.len();
    let mut net: Vec<Option<usize>> = crate::vecs::filled(None, pins);
    let mut n: usize = 0;
    while n < g.nets.len()
        invariant
            n <= g.nets@.len(),
            g.wf(),
            net@.len() == g.pins(),
            forall|p: int| 0 <= p < g.pins() ==> as_net(#[trigger] net@[p]) == net_of(g.nets@, p, n as int),
        decreases g.nets@.len() - n,
    {
        let list = &g.nets[n];
        let mut k: usize = 0;
        assert(forall|p: int| !holds(list@.take(0), p));
        while k < list.len()
            invariant
                n < g.nets@.len(),
                *list == g.nets@[n as int],
                k <= list@.len(),
                g.wf(),
                net@.len() == g.pins(),
                forall|p: int| 0 <= p < g.pins() ==> as_net(#[trigger] net@[p]) == (if holds(list@.take(k as int), p) { Some(n as int) } else { net_of(g.nets@, p, n as int) }),
            decreases list@.len() - k,
        {
            let p: usize = list[k].0;
            assert(g.nets@[n as int]@[k as int].0 < g.pins());
            let ghost net0 = net@;
            net[p] = Some(n);
            proof {
                let (t0, t1) = (list@.take(k as int), list@.take(k + 1));
                assert forall|q: int| 0 <= q < g.pins() implies as_net(#[trigger] net@[q]) == (if holds(t1, q) { Some(n as int) } else { net_of(g.nets@, q, n as int) }) by {
                    if q == p {
                        assert(t1[k as int].0 == q);
                    } else {
                        assert(net@[q] == net0[q]);
                        if holds(t0, q) {
                            let a = choose|a: int| 0 <= a < t0.len() && (#[trigger] t0[a]).0 == q;
                            assert(t1[a].0 == q);
                        }
                        if holds(t1, q) {
                            let a = choose|a: int| 0 <= a < t1.len() && (#[trigger] t1[a]).0 == q;
                            assert(t0[a].0 == q);
                        }
                    }
                }
            }
            k += 1;
        }
        assert(list@.take(k as int) =~= list@);
        n += 1;
    }
    let mut drv: Vec<bool> = crate::vecs::filled(false, pins);
    n = 0;
    proof {
        assert forall|p: int| (#[trigger] pin_net(*g, p)) matches Some(m) ==> m >= 0 by {
            lemma_net_of_range(g.nets@, p, g.nets@.len() as int);
        }
    }
    while n < g.nets.len()
        invariant
            n <= g.nets@.len(),
            g.wf(),
            net@.len() == g.pins(),
            drv@.len() == g.pins(),
            forall|p: int| 0 <= p < g.pins() ==> as_net(#[trigger] net@[p]) == pin_net(*g, p),
            forall|p: int| 0 <= p < g.pins() ==> #[trigger] drv@[p] == (pin_net(*g, p) matches Some(m) && m < n && on_net(g.nets@[m]@, p, true)),
        decreases g.nets@.len() - n,
    {
        let list = &g.nets[n];
        let mut k: usize = 0;
        assert(forall|p: int| !on_net(list@.take(0), p, true));
        while k < list.len()
            invariant
                n < g.nets@.len(),
                *list == g.nets@[n as int],
                k <= list@.len(),
                g.wf(),
                net@.len() == g.pins(),
                drv@.len() == g.pins(),
                forall|p: int| 0 <= p < g.pins() ==> as_net(#[trigger] net@[p]) == pin_net(*g, p),
                forall|p: int| 0 <= p < g.pins() ==> #[trigger] drv@[p] == (pin_net(*g, p) matches Some(m) && ((m < n && on_net(g.nets@[m]@, p, true)) || (m == n && on_net(list@.take(k as int), p, true)))),
            decreases list@.len() - k,
        {
            let (p, d) = list[k];
            assert(g.nets@[n as int]@[k as int].0 < g.pins());
            let ghost drv0 = drv@;
            let here = match net[p] {
                Some(m) => m == n,
                None => false,
            };
            if d && here {
                drv[p] = true;
            }
            proof {
                let (t0, t1) = (list@.take(k as int), list@.take(k + 1));
                assert forall|q: int| 0 <= q < g.pins() implies #[trigger] drv@[q] == (pin_net(*g, q) matches Some(m) && ((m < n && on_net(g.nets@[m]@, q, true)) || (m == n && on_net(t1, q, true)))) by {
                    if on_net(t0, q, true) {
                        let a = choose|a: int| 0 <= a < t0.len() && (#[trigger] t0[a]).0 == q && t0[a].1;
                        assert(t1[a].0 == q && t1[a].1);
                    }
                    if on_net(t1, q, true) {
                        let a = choose|a: int| 0 <= a < t1.len() && (#[trigger] t1[a]).0 == q && t1[a].1;
                        if a < k {
                            assert(t0[a].0 == q && t0[a].1);
                        }
                    }
                    if q == p {
                        assert(as_net(net@[q]) == pin_net(*g, q));
                        if d {
                            assert(t1[k as int].0 == q && t1[k as int].1);
                        }
                    } else {
                        assert(drv@[q] == drv0[q]);
                    }
                }
            }
            k += 1;
        }
        assert(list@.take(k as int) =~= list@);
        n += 1;
    }
    proof {
        assert forall|p: int| 0 <= p < g.pins() implies #[trigger] drv@[p] == drives(*g, p) by {
            lemma_net_of_range(g.nets@, p, g.nets@.len() as int);
        }
    }
    (net, drv)
}

proof fn lemma_net_of_range(nets: Seq<Vec<(usize, bool)>>, p: int, n: int)
    ensures
        net_of(nets, p, n) matches Some(m) ==> 0 <= m < n,
    decreases n,
{
    if n > 0 {
        lemma_net_of_range(nets, p, n - 1);
    }
}

/// The number of drivers of a net.
fn count_drivers(net: &Vec<(usize, bool)>) -> (c: usize)
    ensures
        c == driver_count(net@, net@.len() as int),
{
    let mut c: usize = 0;
    let mut k: usize = 0;
    while k < net.len()
        invariant
            k <= net@.len(),
            c <= k,
            c == driver_count(net@, k as int),
        decreases net@.len() - k,
    {
        if net[k].1 {
            c += 1;
        }
        k += 1;
    }
    c
}

/// What is known while the search runs: `order` holds the pins visited, the first `h` of them with
/// everything they lead to.
spec fn visit_state(g: ClkNetlist, visited: Seq<u8>, order: Seq<usize>, h: int) -> bool {
    &&& visited.len() == g.pins()
    &&& forall|p: int| 0 <= p < g.pins() ==> #[trigger] visited[p] <= 1
    &&& forall|i: int| 0 <= i < order.len() ==> (#[trigger] order[i]) < g.pins() && visited[order[i] as int] == 1 && reached(g, order[i] as int)
    &&& forall|p: int| 0 <= p < g.pins() && #[trigger] visited[p] == 1 ==> exists|i: int| 0 <= i < order.len() && #[trigger] order[i] == p
    &&& forall|i: int, q: int| 0 <= i < h && #[trigger] leads(g, order[i] as int, q) ==> visited[q] == 1
}

proof fn lemma_reached_step(g: ClkNetlist, p: int, q: int)
    requires
        reached(g, p),
        leads(g, p, q),
    ensures
        reached(g, q),
{
    let w = choose|w: Seq<int>| #[trigger] is_way(g, w) && w.last() == p;
    let x = w.push(q);
    assert forall|i: int| 0 <= i < x.len() - 1 implies leads(g, #[trigger] x[i], x[i + 1]) by {
        if i < w.len() - 1 {
            assert(leads(g, w[i], w[i + 1]));
        }
    }
    assert(is_way(g, x) && x.last() == q);
}

proof fn lemma_reached_source(g: ClkNetlist, p: int)
    requires
        is_source(g, p),
    ensures
        reached(g, p),
{
    let w = seq![p];
    assert(is_way(g, w) && w.last() == p);
}

/// Visits a pin once.
fn visit(g: &ClkNetlist, visited: &mut Vec<u8>, order: &mut Vec<usize>, q: usize, Ghost(h): Ghost<int>)
    requires
        visit_state(*g, old(visited)@, old(order)@, h),
        0 <= h <= old(order)@.len(),
        q < g.pins(),
        reached(*g, q as int),
    ensures
        visit_state(*g, final(visited)@, final(order)@, h),
        final(visited)@[q as int] == 1,
        forall|p: int| 0 <= p < g.pins() && old(visited)@[p] == 1 ==> #[trigger] final(visited)@[p] == 1,
        old(order)@.len() <= final(order)@.len(),
        old(order)@ == final(order)@.take(old(order)@.len() as int),
        final(order)@ == (if old(order)@.contains(q) { old(order)@ } else { old(order)@.push(q) }),
        zeros(final(visited)@, g.pins()) <= zeros(old(visited)@, g.pins()),
        final(order)@.len() > old(order)@.len() ==> zeros(final(visited)@, g.pins()) < zeros(old(visited)@, g.pins()),
{
    let ghost (v0, o0) = (visited@, order@);
    proof {
        assert(v0[q as int] <= 1);
        if o0.contains(q) {
            let i = choose|i: int| 0 <= i < o0.len() && o0[i] == q;
            assert(v0[o0[i] as int] == 1);
        }
        if v0[q as int] == 1 {
            let i = choose|i: int| 0 <= i < o0.len() && #[trigger] o0[i] == q as int;
            assert(o0[i] == q);
        }
    }
    if visited[q] == 0 {
        proof {
            lemma_zeros_update(v0, q as int, 1, g.pins());
        }
        visited[q] = 1;
        order.push(q);
        proof {
            let (v, o) = (visited@, order@);
            assert forall|p: int| 0 <= p < g.pins() && #[trigger] v[p] == 1 implies exists|i: int| 0 <= i < o.len() && #[trigger] o[i] == p by {
                if p == q {
                    assert(o[o0.len() as int] == p);
                } else {
                    assert(v0[p] == 1);
                    let i = choose|i: int| 0 <= i < o0.len() && #[trigger] o0[i] == p;
                    assert(o[i] == p);
                }
            }
            assert forall|i: int, r: int| 0 <= i < h && #[trigger] leads(*g, o[i] as int, r) implies v[r] == 1 by {
                assert(o[i] == o0[i]);
                assert(leads(*g, o0[i] as int, r));
            }
            assert forall|i: int| 0 <= i < o.len() implies (#[trigger] o[i]) < g.pins() && v[o[i] as int] == 1 && reached(*g, o[i] as int) by {
                if i < o0.len() {
                    assert(o[i] == o0[i]);
                }
            }
        }
    }
    assert(order@.take(o0.len() as int) =~= o0);
}

/// Whether a pin is among the sources.
fn source(g: &ClkNetlist, p: usize) -> (b: bool)
    ensures
        b == is_source(*g, p as int),
{
    let mut k: usize = 0;
    while k < g.sources.len()
        invariant
            k <= g.sources@.len(),
            forall|j: int| 0 <= j < k ==> #[trigger] g.sources@[j] != p,
        decreases g.sources@.len() - k,
    {
        if g.sources[k] == p {
            assert(g.sources@[k as int] == p as int);
            return true;
        }
        k += 1;
    }
    false
}

/// Visits everything that a pin leads to.
fn visit_fanout(g: &ClkNetlist, net: &Vec<Option<usize>>, drv: &Vec<bool>, visited: &mut Vec<u8>, order: &mut Vec<usize>, p: usize, Ghost(h): Ghost<int>)
    requires
        g.wf(),
        net@.len() == g.pins(),
        drv@.len() == g.pins(),
        forall|p: int| 0 <= p < g.pins() ==> as_net(#[trigger] net@[p]) == pin_net(*g, p),
        forall|p: int| 0 <= p < g.pins() ==> #[trigger] drv@[p] == drives(*g, p),
        visit_state(*g, old(visited)@, old(order)@, h),
        0 <= h < old(order)@.len(),
        old(order)@[h] == p,
    ensures
        visit_state(*g, final(visited)@, final(order)@, h + 1),
        final(order)@ == gone_on(*g, old(order)@, p as int),
        old(order)@.len() <= final(order)@.len(),
        old(order)@ == final(order)@.take(old(order)@.len() as int),
        zeros(final(visited)@, g.pins()) <= zeros(old(visited)@, g.pins()),
        final(order)@.len() > old(order)@.len() ==> zeros(final(visited)@, g.pins()) < zeros(old(visited)@, g.pins()),
{
    let ghost o0 = order@;
    let ghost z0 = zeros(visited@, g.pins());
    assert(order@[h] == p && p < g.pins() && reached(*g, p as int));
    let mut k: usize = 0;
    let driving = drv[p];
    let own: usize = match net[p] {
        Some(n) => n,
        None => 0,
    };
    proof {
        lemma_net_of_range(g.nets@, p as int, g.nets@.len() as int);
        assert(as_net(net@[p as int]) == pin_net(*g, p as int));
    }
    if driving {
        let list = &g.nets[own];
        while k < list.len()
            invariant
                g.wf(),
                own < g.nets@.len(),
                *list == g.nets@[own as int],
                pin_net(*g, p as int) == Some(own as int),
                drives(*g, p as int),
                k <= list@.len(),
                p < g.pins(),
                reached(*g, p as int),
                visit_state(*g, visited@, order@, h),
                0 <= h < o0.len() <= order@.len(),
                o0 == order@.take(o0.len() as int),
                zeros(visited@, g.pins()) <= z0,
                order@.len() > o0.len() ==> zeros(visited@, g.pins()) < z0,
                order@ == over_wires(*g, o0, list@, p as int, k as int),
                forall|j: int| 0 <= j < k && !(#[trigger] list@[j]).1 && list@[j].0 != p && !is_source(*g, list@[j].0 as int) ==> visited@[list@[j].0 as int] == 1,
            decreases list@.len() - k,
        {
            let (q, d) = list[k];
            assert(g.nets@[own as int]@[k as int].0 < g.pins());
            if !d && q != p && !source(g, q) {
                proof {
                    assert(list@[k as int] == (q, false));
                    assert(on_net(g.nets@[own as int]@, q as int, false));
                    assert(leads(*g, p as int, q as int));
                    lemma_reached_step(*g, p as int, q as int);
                }
                let ghost o1 = order@;
                visit(g, visited, order, q, Ghost(h));
                assert(order@.take(o0.len() as int) =~= order@.take(o1.len() as int).take(o0.len() as int));
            }
            k += 1;
        }
    }
    let ghost wired = visited@;
    let ghost after_wires = order@;
    let arcs = &g.arcs[p];
    k = 0;
    while k < arcs.len()
        invariant
            g.wf(),
            p < g.pins(),
            *arcs == g.arcs@[p as int],
            k <= arcs@.len(),
            reached(*g, p as int),
            visit_state(*g, visited@, order@, h),
            0 <= h < o0.len() <= order@.len(),
            o0 == order@.take(o0.len() as int),
            zeros(visited@, g.pins()) <= z0,
            order@.len() > o0.len() ==> zeros(visited@, g.pins()) < z0,
            wired.len() == g.pins(),
            forall|q: int| 0 <= q < g.pins() && wired[q] == 1 ==> #[trigger] visited@[q] == 1,
            order@ == over_arcs(*g, after_wires, arcs@, k as int),
            forall|j: int| 0 <= j < k && !is_source(*g, (#[trigger] arcs@[j]) as int) ==> visited@[arcs@[j] as int] == 1,
        decreases arcs@.len() - k,
    {
        let q: usize = arcs[k];
        assert(g.arcs@[p as int]@[k as int] < g.pins());
        if !source(g, q) {
            proof {
                assert(arc_edge(*g, p as int, q as int)) by {
                    assert(g.arcs@[p as int]@[k as int] == q as int);
                }
                assert(leads(*g, p as int, q as int));
                lemma_reached_step(*g, p as int, q as int);
            }
            let ghost o1 = order@;
            visit(g, visited, order, q, Ghost(h));
            assert(order@.take(o0.len() as int) =~= order@.take(o1.len() as int).take(o0.len() as int));
        }
        k += 1;
    }
    proof {
        assert forall|i: int, q: int| 0 <= i < h + 1 && #[trigger] leads(*g, order@[i] as int, q) implies visited@[q] == 1 by {
            if i == h {
                assert(order@[h] == o0[h]);
                if arc_edge(*g, p as int, q) {
                    let j = choose|j: int| 0 <= j < g.arcs@[p as int]@.len() && #[trigger] g.arcs@[p as int]@[j] == q;
                    assert(arcs@[j] == q);
                } else {
                    let net_list = g.nets@[own as int]@;
                    let j = choose|j: int| 0 <= j < net_list.len() && (#[trigger] net_list[j]).0 == q && !net_list[j].1;
                    assert(!net_list[j].1 && net_list[j].0 != p);
                    assert(wired[q] == 1);
                }
            }
        }
    }
}

/// The pins that the search visits. `Err` with the first pin met whose cell's latch roles may be inferred.
#[verifier::rlimit(60)]
fn visited_pins(g: &ClkNetlist, net: &Vec<Option<usize>>, drv: &Vec<bool>) -> (r: Result<Vec<u8>, usize>)
    requires
        g.wf(),
        net@.len() == g.pins(),
        drv@.len() == g.pins(),
        forall|p: int| 0 <= p < g.pins() ==> as_net(#[trigger] net@[p]) == pin_net(*g, p),
        forall|p: int| 0 <= p < g.pins() ==> #[trigger] drv@[p] == drives(*g, p),
    ensures
        match r {
            Ok(v) => {
                &&& v@.len() == g.pins()
                &&& forall|p: int| 0 <= p < g.pins() ==> (#[trigger] v@[p] == 1 <==> reached(*g, p))
                &&& forall|p: int| 0 <= p < g.pins() && reached(*g, p) ==> !#[trigger] flagged(*g, p)
            },
            Err(p) => p < g.pins() && reached(*g, p as int) && first_flagged(*g, p as int),
        },
{
    let pins: usize = g.arcs.len();
    let mut visited: Vec<u8> = crate::vecs::filled(0u8, pins);
    let mut order: Vec<usize> = Vec::new();
    let mut k: usize = 0;
    while k < g.sources.len()
        invariant
            g.wf(),
            k <= g.sources@.len(),
            visit_state(*g, visited@, order@, 0),
            order@ == g.sources@.take(k as int),
            forall|j: int| 0 <= j < k ==> visited@[(#[trigger] g.sources@[j]) as int] == 1,
        decreases g.sources@.len() - k,
    {
        let s: usize = g.sources[k];
        proof {
            assert(g.sources@[k as int] == s as int);
            lemma_reached_source(*g, s as int);
        }
        proof {
            assert(!g.sources@.take(k as int).contains(s)) by {
                reveal(ascending);
                if g.sources@.take(k as int).contains(s) {
                    let i = choose|i: int| 0 <= i < k && g.sources@.take(k as int)[i] == s;
                    assert(g.sources@[i] < g.sources@[k as int]);
                }
            }
        }
        visit(g, &mut visited, &mut order, s, Ghost(0));
        k += 1;
        assert(order@ =~= g.sources@.take(k as int));
    }
    assert(g.sources@.take(k as int) =~= g.sources@);
    let mut h: usize = 0;
    while h < order.len()
        invariant
            g.wf(),
            net@.len() == g.pins(),
            drv@.len() == g.pins(),
            forall|p: int| 0 <= p < g.pins() ==> as_net(#[trigger] net@[p]) == pin_net(*g, p),
            forall|p: int| 0 <= p < g.pins() ==> #[trigger] drv@[p] == drives(*g, p),
            h <= order@.len(),
            visit_state(*g, visited@, order@, h as int),
            order@ == pins_met(*g, h as int),
            forall|j: int| 0 <= j < g.sources@.len() ==> visited@[(#[trigger] g.sources@[j]) as int] == 1,
            forall|i: int| 0 <= i < h ==> !flagged(*g, (#[trigger] order@[i]) as int),
        decreases zeros(visited@, g.pins()), order@.len() - h,
    {
        let p: usize = order[h];
        let ghost (v0, o0) = (visited@, order@);
        if g.inferred[p] && g.arcs[p].len() > 0 {
            assert(flagged_at(*g, p as int, h as int));
            return Err(p);
        }
        visit_fanout(g, net, drv, &mut visited, &mut order, p, Ghost(h as int));
        proof {
            assert forall|i: int| 0 <= i < h + 1 implies !flagged(*g, (#[trigger] order@[i]) as int) by {
                assert(order@[i] == o0[i]);
            }
            assert forall|j: int| 0 <= j < g.sources@.len() implies visited@[(#[trigger] g.sources@[j]) as int] == 1 by {
                let s = g.sources@[j] as int;
                assert(v0[s] == 1);
                let i = choose|i: int| 0 <= i < o0.len() && #[trigger] o0[i] == s;
                assert(order@[i] == o0[i]);
            }
        }
        h += 1;
    }
    proof {
        assert forall|p: int| 0 <= p < g.pins() implies (#[trigger] visited@[p] == 1 <==> reached(*g, p)) by {
            if visited@[p] == 1 {
                let i = choose|i: int| 0 <= i < order@.len() && #[trigger] order@[i] == p;
                assert(reached(*g, order@[i] as int));
            }
            if reached(*g, p) {
                let w = choose|w: Seq<int>| #[trigger] is_way(*g, w) && w.last() == p;
                lemma_way_visited(*g, visited@, order@, w, w.len() - 1);
            }
        }
        assert forall|p: int| 0 <= p < g.pins() && reached(*g, p) implies !#[trigger] flagged(*g, p) by {
            assert(visited@[p] == 1);
            let i = choose|i: int| 0 <= i < order@.len() && #[trigger] order@[i] == p;
            assert(!flagged(*g, order@[i] as int));
        }
    }
    Ok(visited)
}

proof fn lemma_way_visited(g: ClkNetlist, visited: Seq<u8>, order: Seq<usize>, w: Seq<int>, i: int)
    requires
        visit_state(g, visited, order, order.len() as int),
        forall|j: int| 0 <= j < g.sources@.len() ==> visited[(#[trigger] g.sources@[j]) as int] == 1,
        is_way(g, w),
        0 <= i < w.len(),
        g.wf(),
    ensures
        0 <= w[i] < g.pins(),
        visited[w[i]] == 1,
    decreases i,
{
    if i == 0 {
        let k = choose|k: int| 0 <= k < g.sources@.len() && #[trigger] g.sources@[k] == w[0];
        assert(visited[g.sources@[k] as int] == 1);
    } else {
        lemma_way_visited(g, visited, order, w, i - 1);
        assert(leads(g, w[i - 1], w[i - 1 + 1]));
        let k = choose|k: int| 0 <= k < order.len() && #[trigger] order[k] == w[i - 1];
        assert(leads(g, order[k] as int, w[i]));
    }
}

/// Whether the edges followed have no cycle.
pub open spec fn loop_free(g: ClkNetlist) -> bool {
    forall|c: Seq<int>| !#[trigger] is_loop(g, c)
}

/// Refuses a cycle among the edges followed: `visited` tells the pins visited.
fn refuse_loops(g: &ClkNetlist, net: &Vec<Option<usize>>, drv: &Vec<bool>, visited: &Vec<u8>) -> (r: Result<(), ClkNetworkError>)
    requires
        g.wf(),
        net@.len() == g.pins(),
        drv@.len() == g.pins(),
        forall|p: int| 0 <= p < g.pins() ==> as_net(#[trigger] net@[p]) == pin_net(*g, p),
        forall|p: int| 0 <= p < g.pins() ==> #[trigger] drv@[p] == drives(*g, p),
        visited@.len() == g.pins(),
        forall|p: int| 0 <= p < g.pins() ==> (#[trigger] visited@[p] == 1 <==> reached(*g, p)),
    ensures
        match r {
            Ok(()) => loop_free(*g),
            Err(e) => e matches ClkNetworkError::Loop { pin } && on_loop(*g, pin as int) && meets_first(all_followed(*g), pin),
        },
{
    let pins: usize = g.arcs.len();
    let mut succ: Vec<Vec<usize>> = Vec::new();
    let mut p: usize = 0;
    while p < pins
        invariant
            p <= pins == g.pins(),
            g.wf(),
            net@.len() == g.pins(),
            drv@.len() == g.pins(),
            forall|p: int| 0 <= p < g.pins() ==> as_net(#[trigger] net@[p]) == pin_net(*g, p),
            forall|p: int| 0 <= p < g.pins() ==> #[trigger] drv@[p] == drives(*g, p),
            visited@.len() == g.pins(),
            forall|p: int| 0 <= p < g.pins() ==> (#[trigger] visited@[p] == 1 <==> reached(*g, p)),
            succ@.len() == p,
            forall|a: int| 0 <= a < p ==> followed_list(*g, a, (#[trigger] succ@[a])@) && succ@[a]@ == followed_pins(*g, a),
        decreases pins - p,
    {
        let list = followed_from(g, net, drv, visited, p);
        succ.push(list);
        p += 1;
    }
    proof {
        assert forall|a: int, k: int| 0 <= a < succ@.len() && 0 <= k < succ@[a]@.len() implies #[trigger] succ@[a]@[k] < succ@.len() by {
            assert(followed_list(*g, a, succ@[a]@));
        }
        assert forall|a: int, b: int| 0 <= a < g.pins() implies #[trigger] succeeds(succ@, a, b) == followed(*g, a, b) by {
            assert(followed_list(*g, a, succ@[a]@));
            if succeeds(succ@, a, b) {
                let k = choose|k: int| 0 <= k < succ@[a]@.len() && #[trigger] succ@[a]@[k] == b;
                assert(followed(*g, a, succ@[a]@[k] as int));
            }
            if followed(*g, a, b) {
                let k = choose|k: int| 0 <= k < succ@[a]@.len() && #[trigger] succ@[a]@[k] == b;
                assert(succ@[a]@[k] == b);
            }
        }
    }
    match find_cycle(&succ) {
        Some(q) => {
            proof {
                let c = choose|c: Seq<int>| is_cycle(succ@, c, q as int);
                assert forall|i: int| 0 <= i < c.len() - 1 implies followed(*g, #[trigger] c[i], c[i + 1]) by {
                    assert(succeeds(succ@, c[i], c[i + 1]));
                }
                assert(is_loop(*g, c) && c[0] == q);
                assert(lists(succ@) =~= all_followed(*g));
            }
            Err(ClkNetworkError::Loop { pin: q })
        },
        None => {
            proof {
                let rank = choose|rank: Seq<int>| ranked(succ@, rank);
                assert forall|c: Seq<int>| !#[trigger] is_loop(*g, c) by {
                    if is_loop(*g, c) {
                        assert forall|i: int| 0 <= i < c.len() - 1 implies succeeds(succ@, #[trigger] c[i], c[i + 1]) by {
                            assert(followed(*g, c[i], c[i + 1]));
                            lemma_reached_pin(*g, c[i]);
                        }
                        ranked_graphs_have_no_cycle(succ@, rank, c, c[0]);
                    }
                }
            }
            Ok(())
        },
    }
}

proof fn lemma_reached_pin(g: ClkNetlist, p: int)
    requires
        g.wf(),
        reached(g, p),
    ensures
        0 <= p < g.pins(),
{
    let w = choose|w: Seq<int>| #[trigger] is_way(g, w) && w.last() == p;
    if w.len() == 1 {
        let k = choose|k: int| 0 <= k < g.sources@.len() && #[trigger] g.sources@[k] == w[0];
        assert(g.sources@[k] < g.pins());
    } else {
        assert(leads(g, w[w.len() - 2], w[w.len() - 2 + 1]));
    }
}

/// Whether a list holds exactly the pins that edges from `p` lead to.
spec fn followed_list(g: ClkNetlist, p: int, s: Seq<usize>) -> bool {
    &&& forall|k: int| 0 <= k < s.len() ==> followed(g, p, (#[trigger] s[k]) as int) && s[k] < g.pins()
    &&& forall|q: int| #[trigger] followed(g, p, q) ==> exists|k: int| 0 <= k < s.len() && #[trigger] s[k] == q
}

/// The pins that edges from `p` lead to.
fn followed_from(g: &ClkNetlist, net: &Vec<Option<usize>>, drv: &Vec<bool>, visited: &Vec<u8>, p: usize) -> (s: Vec<usize>)
    requires
        g.wf(),
        p < g.pins(),
        net@.len() == g.pins(),
        drv@.len() == g.pins(),
        forall|p: int| 0 <= p < g.pins() ==> as_net(#[trigger] net@[p]) == pin_net(*g, p),
        forall|p: int| 0 <= p < g.pins() ==> #[trigger] drv@[p] == drives(*g, p),
        visited@.len() == g.pins(),
        forall|p: int| 0 <= p < g.pins() ==> (#[trigger] visited@[p] == 1 <==> reached(*g, p)),
    ensures
        followed_list(*g, p as int, s@),
        s@ == followed_pins(*g, p as int),
{
    let mut s: Vec<usize> = Vec::new();
    proof {
        assert(visited@[p as int] == 1 <==> reached(*g, p as int));
        assert(as_net(net@[p as int]) == pin_net(*g, p as int));
        lemma_net_of_range(g.nets@, p as int, g.nets@.len() as int);
    }
    if visited[p] != 1 {
        return s;
    }
    let arcs = &g.arcs[p];
    let mut k: usize = 0;
    while k < arcs.len()
        invariant
            g.wf(),
            p < g.pins(),
            *arcs == g.arcs@[p as int],
            k <= arcs@.len(),
            reached(*g, p as int),
            s@ == arcs@.take(k as int),
        decreases arcs@.len() - k,
    {
        s.push(arcs[k]);
        k += 1;
        assert(s@ =~= arcs@.take(k as int));
    }
    assert(s@ =~= arcs@);
    proof {
        assert forall|j: int| 0 <= j < s@.len() implies followed(*g, p as int, (#[trigger] s@[j]) as int) && s@[j] < g.pins() by {
            assert(g.arcs@[p as int]@[j] == s@[j] as int);
        }
    }
    let ghost base = s@;
    let own: usize = match net[p] {
        Some(n) => n,
        None => 0,
    };
    if drv[p] {
        let list = &g.nets[own];
        k = 0;
        assert(s@ =~= base + loads_reached(*g, list@, 0));
        while k < list.len()
            invariant
                g.wf(),
                p < g.pins(),
                own < g.nets@.len(),
                *list == g.nets@[own as int],
                pin_net(*g, p as int) == Some(own as int),
                drives(*g, p as int),
                reached(*g, p as int),
                visited@.len() == g.pins(),
                forall|p: int| 0 <= p < g.pins() ==> (#[trigger] visited@[p] == 1 <==> reached(*g, p)),
                k <= list@.len(),
                base.len() <= s@.len(),
                s@.take(base.len() as int) == base,
                s@ == base + loads_reached(*g, list@, k as int),
                forall|j: int| 0 <= j < s@.len() ==> followed(*g, p as int, (#[trigger] s@[j]) as int) && s@[j] < g.pins(),
                forall|j: int| 0 <= j < k && !(#[trigger] list@[j]).1 && reached(*g, list@[j].0 as int) ==> s@.contains(list@[j].0),
            decreases list@.len() - k,
        {
            let (q, d) = list[k];
            assert(g.nets@[own as int]@[k as int].0 < g.pins());
            let ghost s0 = s@;
            if !d && visited[q] == 1 {
                proof {
                    assert(visited@[q as int] == 1 <==> reached(*g, q as int));
                    assert(list@[k as int] == (q, false));
                    assert(on_net(g.nets@[own as int]@, q as int, false));
                }
                s.push(q);
                assert(s@.take(base.len() as int) =~= s0.take(base.len() as int));
            }
            proof {
                assert forall|j: int| 0 <= j < k + 1 && !(#[trigger] list@[j]).1 && reached(*g, list@[j].0 as int) implies s@.contains(list@[j].0) by {
                    if j < k {
                        let i = choose|i: int| 0 <= i < s0.len() && s0[i] == list@[j].0;
                        assert(s@[i] == list@[j].0);
                    } else {
                        assert(visited@[q as int] == 1 <==> reached(*g, q as int));
                        assert(s@[s0.len() as int] == q);
                    }
                }
                assert(visited@[q as int] == 1 <==> reached(*g, q as int));
                assert(s@ =~= base + loads_reached(*g, list@, k + 1));
            }
            k += 1;
        }
    }
    proof {
        assert forall|q: int| #[trigger] followed(*g, p as int, q) implies exists|k: int| 0 <= k < s@.len() && #[trigger] s@[k] == q by {
            if arc_edge(*g, p as int, q) {
                let j = choose|j: int| 0 <= j < g.arcs@[p as int]@.len() && #[trigger] g.arcs@[p as int]@[j] == q;
                assert(base[j] == q);
                assert(s@[j] == s@.take(base.len() as int)[j]);
            } else {
                let net_list = g.nets@[own as int]@;
                let j = choose|j: int| 0 <= j < net_list.len() && (#[trigger] net_list[j]).0 == q && !net_list[j].1;
                lemma_reached_pin(*g, q);
                assert(!net_list[j].1 && net_list[j].0 == q);
                assert(s@.contains(net_list[j].0));
                let i = choose|i: int| 0 <= i < s@.len() && s@[i] == net_list[j].0;
                assert(s@[i] == q);
            }
        }
    }
    assert(s@ =~= followed_pins(*g, p as int));
    s
}

/// Whether a net has a pin that the search visits.
pub open spec fn clocked(g: ClkNetlist, n: int) -> bool {
    exists|p: int| 0 <= p < g.pins() && reached(g, p) && #[trigger] pin_net(g, p) == Some(n)
}

/// Whether a list of nets holds `n`.
pub open spec fn listed(nets: Seq<usize>, n: int) -> bool {
    exists|i: int| 0 <= i < nets.len() && #[trigger] nets[i] == n
}

/// Whether a source has no net.
pub open spec fn loose_source(g: ClkNetlist, k: int) -> bool {
    pin_net(g, g.sources@[k] as int) is None
}

/// Whether a netlist's nets are all within the driver limit and its sources connected.
pub open spec fn well_driven(g: ClkNetlist) -> bool {
    &&& forall|n: int| 0 <= n < g.nets@.len() ==> !crowded((#[trigger] g.nets@[n])@)
    &&& forall|k: int| 0 <= k < g.sources@.len() ==> !#[trigger] loose_source(g, k)
}

/// The nets that the clock network reaches, ascending.
///
/// Refused, in this order: the first net with too many drivers, the first source without a net, the
/// first pin met whose cell's latch roles may be inferred, and the first loop met among the edges
/// followed, from the lowest pin on.
pub fn find_clk_nets(g: &ClkNetlist) -> (r: Result<Vec<usize>, ClkNetworkError>)
    requires
        g.wf(),
    ensures
        match r {
            Ok(nets) => {
                &&& well_driven(*g)
                &&& forall|p: int| 0 <= p < g.pins() && reached(*g, p) ==> !#[trigger] flagged(*g, p)
                &&& loop_free(*g)
                &&& forall|i: int, j: int| 0 <= i < j < nets@.len() ==> #[trigger] nets@[i] < #[trigger] nets@[j]
                &&& forall|n: int| #[trigger] listed(nets@, n) <==> 0 <= n < g.nets@.len() && clocked(*g, n)
            },
            Err(ClkNetworkError::TooManyDrivers { net, drivers }) => {
                &&& net < g.nets@.len()
                &&& crowded(g.nets@[net as int]@)
                &&& drivers == driver_count(g.nets@[net as int]@, g.nets@[net as int]@.len() as int)
                &&& forall|n: int| 0 <= n < net ==> !crowded((#[trigger] g.nets@[n])@)
            },
            Err(ClkNetworkError::UnconnectedSource { pin }) => {
                &&& forall|n: int| 0 <= n < g.nets@.len() ==> !crowded((#[trigger] g.nets@[n])@)
                &&& exists|k: int| {
                    &&& 0 <= k < g.sources@.len()
                    &&& #[trigger] loose_source(*g, k)
                    &&& g.sources@[k] == pin
                    &&& forall|j: int| 0 <= j < k ==> !#[trigger] loose_source(*g, j)
                }
            },
            Err(ClkNetworkError::InferredLatch { pin }) => well_driven(*g) && pin < g.pins() && reached(*g, pin as int) && first_flagged(
                *g, pin as int),
            Err(ClkNetworkError::Loop { pin }) => {
                &&& well_driven(*g)
                &&& forall|p: int| 0 <= p < g.pins() && reached(*g, p) ==> !#[trigger] flagged(*g, p)
                &&& on_loop(*g, pin as int)
                &&& meets_first(all_followed(*g), pin)
            },
        },
{
    let mut n: usize = 0;
    while n < g.nets.len()
        invariant
            n <= g.nets@.len(),
            forall|m: int| 0 <= m < n ==> !crowded((#[trigger] g.nets@[m])@),
        decreases g.nets@.len() - n,
    {
        let c: usize = count_drivers(&g.nets[n]);
        if c >= DRIVER_LIMIT {
            return Err(ClkNetworkError::TooManyDrivers { net: n, drivers: c });
        }
        n += 1;
    }
    let (net, drv) = pin_tables(g);
    let mut k: usize = 0;
    while k < g.sources.len()
        invariant
            g.wf(),
            k <= g.sources@.len(),
            net@.len() == g.pins(),
            forall|p: int| 0 <= p < g.pins() ==> as_net(#[trigger] net@[p]) == pin_net(*g, p),
            forall|m: int| 0 <= m < g.nets@.len() ==> !crowded((#[trigger] g.nets@[m])@),
            forall|j: int| 0 <= j < k ==> !#[trigger] loose_source(*g, j),
        decreases g.sources@.len() - k,
    {
        let s: usize = g.sources[k];
        assert(g.sources@[k as int] == s as int);
        assert(as_net(net@[s as int]) == pin_net(*g, s as int));
        if net[s].is_none() {
            assert(loose_source(*g, k as int));
            return Err(ClkNetworkError::UnconnectedSource { pin: s });
        }
        k += 1;
    }
    let visited = match visited_pins(g, &net, &drv) {
        Ok(v) => v,
        Err(p) => {
            return Err(ClkNetworkError::InferredLatch { pin: p });
        },
    };
    match refuse_loops(g, &net, &drv, &visited) {
        Ok(()) => {},
        Err(e) => {
            return Err(e);
        },
    }
    let nets = clocked_nets(g, &net, &visited);
    Ok(nets)
}

fn clocked_nets(g: &ClkNetlist, net: &Vec<Option<usize>>, visited: &Vec<u8>) -> (nets: Vec<usize>)
    requires
        g.wf(),
        net@.len() == g.pins(),
        forall|p: int| 0 <= p < g.pins() ==> as_net(#[trigger] net@[p]) == pin_net(*g, p),
        visited@.len() == g.pins(),
        forall|p: int| 0 <= p < g.pins() ==> (#[trigger] visited@[p] == 1 <==> reached(*g, p)),
    ensures
        forall|i: int, j: int| 0 <= i < j < nets@.len() ==> #[trigger] nets@[i] < #[trigger] nets@[j],
        forall|n: int| #[trigger] listed(nets@, n) <==> 0 <= n < g.nets@.len() && clocked(*g, n),
{
    let pins: usize = g.arcs.len();
    let count: usize = g.nets.len();
    let mut mark: Vec<bool> = crate::vecs::filled(false, count);
    let mut p: usize = 0;
    while p < pins
        invariant
            p <= pins == g.pins(),
            count == g.nets@.len(),
            net@.len() == g.pins(),
            mark@.len() == count,
            forall|p: int| 0 <= p < g.pins() ==> as_net(#[trigger] net@[p]) == pin_net(*g, p),
            visited@.len() == g.pins(),
            forall|p: int| 0 <= p < g.pins() ==> (#[trigger] visited@[p] == 1 <==> reached(*g, p)),
            forall|n: int| 0 <= n < count ==> (#[trigger] mark@[n] <==> exists|q: int| 0 <= q < p && reached(*g, q) && #[trigger] pin_net(*g, q) == Some(n)),
        decreases pins - p,
    {
        let ghost m0 = mark@;
        proof {
            assert(as_net(net@[p as int]) == pin_net(*g, p as int));
            assert(visited@[p as int] == 1 <==> reached(*g, p as int));
            lemma_net_of_range(g.nets@, p as int, g.nets@.len() as int);
        }
        if visited[p] == 1 {
            match net[p] {
                Some(n) => {
                    mark[n] = true;
                },
                None => {},
            }
        }
        proof {
            assert forall|n: int| 0 <= n < count implies (#[trigger] mark@[n] <==> exists|q: int| 0 <= q < p + 1 && reached(*g, q) && #[trigger] pin_net(*g, q) == Some(n)) by {
                assert(m0[n] <==> exists|q: int| 0 <= q < p && reached(*g, q) && #[trigger] pin_net(*g, q) == Some(n));
                if mark@[n] && !m0[n] {
                    assert(pin_net(*g, p as int) == Some(n));
                }
                if exists|q: int| 0 <= q < p + 1 && reached(*g, q) && #[trigger] pin_net(*g, q) == Some(n) {
                    let q = choose|q: int| 0 <= q < p + 1 && reached(*g, q) && #[trigger] pin_net(*g, q) == Some(n);
                    if q < p {
                        assert(m0[n]);
                    }
                }
            }
        }
        p += 1;
    }
    let mut nets: Vec<usize> = Vec::new();
    let mut n: usize = 0;
    while n < count
        invariant
            n <= count == g.nets@.len(),
            mark@.len() == count,
            forall|n: int| 0 <= n < count ==> (#[trigger] mark@[n] <==> clocked(*g, n)),
            forall|i: int| 0 <= i < nets@.len() ==> (#[trigger] nets@[i]) < n,
            forall|i: int, j: int| 0 <= i < j < nets@.len() ==> #[trigger] nets@[i] < #[trigger] nets@[j],
            forall|m: int| #[trigger] listed(nets@, m) <==> 0 <= m < n && clocked(*g, m),
        decreases count - n,
    {
        let ghost s0 = nets@;
        assert(mark@[n as int] <==> clocked(*g, n as int));
        if mark[n] {
            nets.push(n);
        }
        proof {
            assert forall|m: int| #[trigger] listed(nets@, m) <==> 0 <= m < n + 1 && clocked(*g, m) by {
                assert(listed(s0, m) <==> 0 <= m < n && clocked(*g, m));
                if listed(nets@, m) {
                    let i = choose|i: int| 0 <= i < nets@.len() && #[trigger] nets@[i] == m;
                    if i < s0.len() {
                        assert(s0[i] == m);
                    }
                }
                if 0 <= m < n + 1 && clocked(*g, m) {
                    if m < n {
                        let i = choose|i: int| 0 <= i < s0.len() && #[trigger] s0[i] == m;
                        assert(nets@[i] == m);
                    } else {
                        assert(nets@[s0.len() as int] == m);
                    }
                }
            }
        }
        n += 1;
    }
    nets
}

/// A net has as many drivers as it has pins that drive it.
pub proof fn the_drivers_on_a_net_are_counted(net: Seq<(usize, bool)>, n: int)
    requires
        0 <= n,
    ensures
        driver_count(net, n) == count_of(
            n,
            |k: int| net[k].1,
        ),
    decreases n,
{
    let f = |k: int| net[k].1;
    if n > 0 {
        the_drivers_on_a_net_are_counted(net, n - 1);
        lemma_count_next(n - 1, f);
    } else {
        lemma_count_none(f);
    }
}

/// The net of a pin is the last that holds it, and there is none where no net does.
pub proof fn the_net_of_a_pin_holds_it(nets: Seq<Vec<(usize, bool)>>, p: int, n: int)
    requires
        0 <= n,
    ensures
        is_last_of(net_of(nets, p, n), n, |k: int| holds(nets[k]@, p)),
    decreases n,
{
    if n > 0 {
        the_net_of_a_pin_holds_it(nets, p, n - 1);
    }
}

/// The loads of a net that the clock reaches are its pins that do not drive it and to which a way
/// leads, in order.
pub proof fn the_loads_reached_are_the_pins_that_do_not_drive(g: ClkNetlist, net: Seq<(usize, bool)>, n: int)
    requires
        0 <= n,
    ensures
        loads_reached(g, net, n) == all_of(
            n,
            |k: int| if !net[k].1 && reached(g, net[k].0 as int) { seq![net[k].0] } else { Seq::empty() },
        ),
    decreases n,
{
    let f = |k: int| if !net[k].1 && reached(g, net[k].0 as int) { seq![net[k].0] } else { Seq::empty() };
    if n > 0 {
        the_loads_reached_are_the_pins_that_do_not_drive(g, net, n - 1);
        lemma_all_next(n - 1, f);
    } else {
        lemma_all_none(f);
    }
    assert(loads_reached(g, net, n) =~= all_of(n, f));
}

} // verus!
