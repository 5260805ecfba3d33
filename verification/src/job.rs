//! A routing job: the steps of a script, what each of them does to the options, and the guides that the calls
//! leave. Percentages, adjustments and weights are of a type of the caller's, and are only carried.

use crate::lists::{is_first_of};
use vstd::prelude::*;
use vstd::string::StringExecFns;

use crate::callbacks::same_text;
use crate::cli::{all_matching, guides_text, is_name_order, matching, named_once, nets_to_route, write_guides, Fail, GuideBox, StoredGuides};
use crate::global_route::nets::{alpha_of, slack_source, source_of, steiner_alpha, AlphaRules, NetSlack, SlackSource};
use crate::text::{push_text, texts};
use crate::Rect;

verus! {

/// An adjustment of a region on a level.
#[derive(Debug, Clone, Copy)]
pub struct RegionAdjustment<F: Copy> {
    pub rect: Rect,
    pub layer: i32,
    pub value: F,
}

/// The options of a run that the database does not hold.
#[derive(Debug)]
pub struct RouteOptions<F: Copy> {
    pub verbose: bool,
    /// Whether a library is loaded.
    pub has_liberty: bool,
    /// The ports that clocks come from.
    pub clock_sources: Vec<String>,
    /// The slacks that were captured at each reading for the nets' order.
    pub captured_slacks: Option<Vec<Vec<NetSlack<F>>>>,
    /// Those at each reading for all nets.
    pub captured_update_slacks: Option<Vec<Vec<NetSlack<F>>>>,
    pub critical_nets_percentage: F,
    /// The adjustment of every level that has none of its own.
    pub adjustment: F,
    pub grid_origin: (i32, i32),
    pub infinite_capacity: bool,
    pub region_adjustments: Vec<RegionAdjustment<F>>,
    /// The largest fanout that is routed.
    pub skip_large_fanout: i32,
    /// The nets to route by name, in order; all without one.
    pub nets_to_route: Option<Vec<String>>,
    /// The weight of a net's Steiner tree.
    pub alpha: F,
    /// From a fanout on, another weight.
    pub min_fanout_alpha: Option<(i32, F)>,
    /// From a wirelength on in database units, another weight.
    pub min_hpwl_alpha: Option<(i32, F)>,
    /// The weights of nets of their own, by name.
    pub net_alpha: Vec<(String, F)>,
    pub allow_congestion: bool,
    pub congestion_iterations: i32,
    /// In tiles.
    pub macro_extension: i32,
    pub resistance_aware: bool,
    /// How many nets a resistance-aware run takes, once that is fixed.
    pub res_aware_nets_percentage: Option<F>,
}

/// The options that are given no number of their own at first.
#[derive(Debug, Clone, Copy)]
pub struct FirstValues<F: Copy> {
    pub critical_nets_percentage: F,
    pub adjustment: F,
    pub alpha: F,
}

/// Whether options are those of a fresh run.
pub open spec fn is_fresh<F: Copy>(o: RouteOptions<F>, v: FirstValues<F>, has_liberty: bool) -> bool {
    &&& !o.verbose && !o.infinite_capacity && !o.allow_congestion && !o.resistance_aware
    &&& o.has_liberty == has_liberty
    &&& o.critical_nets_percentage == v.critical_nets_percentage
    &&& o.adjustment == v.adjustment
    &&& o.alpha == v.alpha
    &&& o.grid_origin == (0i32, 0i32)
    &&& o.region_adjustments@.len() == 0
    &&& o.skip_large_fanout == i32::MAX
    &&& o.nets_to_route is None
    &&& o.min_fanout_alpha is None
    &&& o.min_hpwl_alpha is None
    &&& o.net_alpha@.len() == 0
    &&& o.clock_sources@.len() == 0
    &&& o.captured_slacks is None
    &&& o.captured_update_slacks is None
    &&& o.res_aware_nets_percentage is None
    &&& o.congestion_iterations == 50
    &&& o.macro_extension == 0
}

impl<F: Copy> RouteOptions<F> {
    /// The options of a fresh run: nothing allowed, nothing skipped, fifty rounds against congestion.
    pub fn new(v: FirstValues<F>, has_liberty: bool) -> (o: Self)
        ensures
            is_fresh(o, v, has_liberty),
    {
        RouteOptions {
            verbose: false,
            has_liberty,
            clock_sources: Vec::new(),
            captured_slacks: None,
            captured_update_slacks: None,
            critical_nets_percentage: v.critical_nets_percentage,
            adjustment: v.adjustment,
            grid_origin: (0, 0),
            infinite_capacity: false,
            region_adjustments: Vec::new(),
            skip_large_fanout: i32::MAX,
            nets_to_route: None,
            alpha: v.alpha,
            min_fanout_alpha: None,
            min_hpwl_alpha: None,
            net_alpha: Vec::new(),
            allow_congestion: false,
            congestion_iterations: 50,
            macro_extension: 0,
            resistance_aware: false,
            res_aware_nets_percentage: None,
        }
    }

    /// Whether the slacks are a timer's: a library is loaded and a clock defined.
    pub fn is_timed(&self) -> (r: bool)
        ensures
            r == (self.has_liberty && self.clock_sources@.len() > 0),
    {
        self.has_liberty && self.clock_sources.len() > 0
    }

    /// Where the slacks of the nets' order come from.
    pub fn slacks(&self) -> (s: SlackSource)
        ensures
            s == source_of(self.has_liberty, self.clock_sources@.len() > 0, self.captured_slacks is Some),
    {
        slack_source(self.has_liberty, self.clock_sources.len() > 0, self.captured_slacks.is_some())
    }

    /// Where the slacks of all nets come from.
    pub fn update_slacks(&self) -> (s: SlackSource)
        ensures
            s == source_of(self.has_liberty, self.clock_sources@.len() > 0, self.captured_update_slacks is Some),
    {
        slack_source(self.has_liberty, self.clock_sources.len() > 0, self.captured_update_slacks.is_some())
    }

    /// The weight of the Steiner tree of a net, by its name, wirelength and number of terminals.
    pub fn net_steiner_alpha(&self, name: &str, hpwl: i64, term_count: i32) -> (a: F)
        ensures
            a == alpha_of(
                (AlphaRules { min_hpwl: self.min_hpwl_alpha, min_fanout: self.min_fanout_alpha }), own_alpha(self.net_alpha@, name@, 0), self.alpha, hpwl as int, term_count as int),
    {
        let mut own: Option<F> = None;
        let mut k: usize = 0;
        while k < self.net_alpha.len() && own.is_none()
            invariant
                k <= self.net_alpha@.len(),
                own is None ==> own_alpha(self.net_alpha@, name@, k as int) == own_alpha(self.net_alpha@, name@, 0),
                own is Some ==> own_alpha(self.net_alpha@, name@, 0) == own,
            decreases self.net_alpha@.len() - k,
        {
            if same_text(self.net_alpha[k].0.as_str(), name) {
                own = Some(self.net_alpha[k].1);
            }
            k += 1;
        }
        steiner_alpha(&AlphaRules { min_hpwl: self.min_hpwl_alpha, min_fanout: self.min_fanout_alpha }, own, self.alpha, hpwl, term_count)
    }
}

/// The weight of a net's own, from the `k`-th on.
pub open spec fn own_alpha<F>(v: Seq<(String, F)>, name: Seq<char>, k: int) -> Option<F>
    decreases v.len() - k,
{
    if k >= v.len() {
        None
    } else if v[k].0@ == name {
        Some(v[k].1)
    } else {
        own_alpha(v, name, k + 1)
    }
}

/// The options of one call of the router; what is not given stays as it was, but for the two flags.
#[derive(Debug, Clone, Copy)]
pub struct CallOptions<F: Copy> {
    pub verbose: bool,
    pub allow_congestion: bool,
    pub grid_origin: Option<(i32, i32)>,
    pub skip_large_fanout: Option<i32>,
    pub congestion_iterations: Option<i32>,
    pub critical_nets_percentage: Option<F>,
}

/// A step of a job, its layers as routing levels.
#[derive(Debug)]
pub enum JobStep<F: Copy> {
    SetRoutingLayers { signal: Option<(i32, i32)>, clock: Option<(i32, i32)> },
    LayerAdjustment { lo: i32, hi: i32, value: F },
    GlobalAdjustment { value: F },
    RegionAdjustment(RegionAdjustment<F>),
    RoutingAlpha { alpha: F, min_fanout: Option<i32> },
    NetsToRoute { patterns: Vec<String> },
    GlobalRoute(CallOptions<F>),
    WriteGuides { path: String },
    /// A step of another name, quoted.
    Unknown { quoted: String },
}

/// What is left to do of a step.
#[derive(Debug)]
pub enum JobAction<F: Copy> {
    Done,
    SetLayers { signal: Option<(i32, i32)>, clock: Option<(i32, i32)> },
    /// The levels from `lo` to `hi` are adjusted, one by one.
    AdjustLayers { lo: i32, hi: i32, value: F },
    Route,
    /// The guide file is written.
    Write { path: String, text: String },
    Fail(Fail),
}

/// What a call of the router is reported with.
#[derive(Debug, Clone, Copy, PartialEq, Eq, Structural)]
pub struct CallReport {
    pub nets: usize,
    pub total_overflow: i32,
    pub congested: bool,
}

// ---- the guides that the calls leave ----

/// Where a net's guides stand.
pub open spec fn guides_at(store: Seq<StoredGuides>, net: Seq<char>, k: int) -> Option<int>
    decreases store.len() - k,
{
    if k >= store.len() {
        None
    } else if store[k].net@ == net {
        Some(k)
    } else {
        guides_at(store, net, k + 1)
    }
}

/// The store with a net's guides in the place of those it had.
pub open spec fn put_in(store: Seq<StoredGuides>, g: StoredGuides) -> Seq<StoredGuides> {
    match guides_at(store, g.net@, 0) {
        Some(k) => store.update(k, g),
        None => store.push(g),
    }
}

/// The store with the guides of the first `n` nets of a list put in.
pub open spec fn all_put_in(store: Seq<StoredGuides>, gs: Seq<StoredGuides>, n: int) -> Seq<StoredGuides>
    decreases n,
{
    if n <= 0 { store } else { put_in(all_put_in(store, gs, n - 1), gs[n - 1]) }
}

/// A net's guides in a store.
pub open spec fn guides_of(store: Seq<StoredGuides>, net: Seq<char>) -> Option<Seq<GuideBox>> {
    match guides_at(store, net, 0) {
        Some(k) => Some(store[k].boxes@),
        None => None,
    }
}

proof fn lemma_guides_at(store: Seq<StoredGuides>, net: Seq<char>, k: int)
    requires
        0 <= k,
    ensures
        match guides_at(store, net, k) {
            Some(i) => k <= i < store.len() && store[i].net@ == net && forall|j: int| k <= j < i ==> (#[trigger] store[j]).net@ != net,
            None => forall|j: int| k <= j < store.len() ==> (#[trigger] store[j]).net@ != net,
        },
    decreases store.len() - k,
{
    if k < store.len() && store[k].net@ != net {
        lemma_guides_at(store, net, k + 1);
    }
}

/// A call's guides take the place of those that its nets had; every other net keeps its own.
pub proof fn the_last_guides_count(store: Seq<StoredGuides>, g: StoredGuides, net: Seq<char>)
    requires
        named_once(store),
    ensures
        named_once(put_in(store, g)),
        guides_of(put_in(store, g), net) == (if net == g.net@ { Some(g.boxes@) } else { guides_of(store, net) }),
{
    let s = put_in(store, g);
    lemma_guides_at(store, g.net@, 0);
    lemma_guides_at(store, net, 0);
    lemma_guides_at(s, net, 0);
    assert forall|i: int, j: int| 0 <= i < j < s.len() implies (#[trigger] s[i]).net@ != (#[trigger] s[j]).net@ by {
        if j < store.len() {
            assert(store[i].net@ != store[j].net@);
        }
    }
    match guides_at(store, g.net@, 0) {
        Some(k) => {
            match guides_at(s, net, 0) {
                Some(i) => {
                    if net == g.net@ {
                        assert(s[k].net@ == net);
                        if i < k {
                            assert(s[i].net@ != s[k].net@);
                        }
                    } else {
                        assert(i != k);
                        assert(store[i].net@ == net);
                        let q = guides_at(store, net, 0)->0;
                        if q < i {
                            assert(store[q].net@ != store[i].net@);
                        }
                    }
                },
                None => {
                    if net == g.net@ {
                        assert(s[k].net@ == net);
                    } else if guides_at(store, net, 0) is Some {
                        let q = guides_at(store, net, 0)->0;
                        assert(s[q].net@ == net);
                    }
                },
            }
        },
        None => {
            let last = store.len() as int;
            match guides_at(s, net, 0) {
                Some(i) => {
                    if net == g.net@ {
                        if i < last {
                            assert(store[i].net@ == net);
                        }
                    } else {
                        assert(i < last);
                        assert(store[i].net@ == net);
                        let q = guides_at(store, net, 0)->0;
                        if q < i {
                            assert(store[q].net@ != store[i].net@);
                        }
                    }
                },
                None => {
                    if net == g.net@ {
                        assert(s[last].net@ == net);
                    } else if guides_at(store, net, 0) is Some {
                        let q = guides_at(store, net, 0)->0;
                        assert(s[q].net@ == net);
                    }
                },
            }
        },
    }
}

fn put(store: &mut Vec<StoredGuides>, g: StoredGuides)
    requires
        named_once(old(store)@),
    ensures
        named_once(final(store)@),
        final(store)@ == put_in(old(store)@, g),
{
    let ghost s0 = store@;
    proof {
        the_last_guides_count(s0, g, g.net@);
        lemma_guides_at(s0, g.net@, 0);
    }
    let mut k: usize = 0;
    while k < store.len()
        invariant
            k <= store@.len(),
            store@ == s0,
            s0 == old(store)@,
            named_once(put_in(s0, g)),
            forall|j: int| 0 <= j < k ==> (#[trigger] s0[j]).net@ != g.net@,
        decreases store@.len() - k,
    {
        if same_text(store[k].net.as_str(), g.net.as_str()) {
            proof {
                lemma_guides_at(s0, g.net@, 0);
                assert(s0[k as int].net@ == g.net@);
            }
            store.set(k, g);
            return;
        }
        k += 1;
    }
    store.push(g);
}

fn reversed(v: Vec<StoredGuides>) -> (r: Vec<StoredGuides>)
    ensures
        r@ == v@.reverse(),
{
    let ghost v0 = v@;
    let mut v = v;
    let mut r: Vec<StoredGuides> = Vec::new();
    while v.len() > 0
        invariant
            v@.len() <= v0.len(),
            v@ == v0.take(v@.len() as int),
            r@ == v0.skip(v@.len() as int).reverse(),
        decreases v@.len(),
    {
        let ghost n = v@.len() as int;
        match v.pop() {
            Some(g) => r.push(g),
            None => {},
        }
        assert(r@ =~= v0.skip(n - 1).reverse());
    }
    assert(v0.skip(0) =~= v0);
    r
}

// ---- the job ----

/// A job: its options, the guides so far, and its calls of the router.
#[derive(Debug)]
pub struct Job<F: Copy> {
    pub options: RouteOptions<F>,
    pub guides: Vec<StoredGuides>,
    pub calls: Vec<CallReport>,
}

/// The options after a call's own are taken over. Without a library the percentage of critical nets is `zero`
/// whatever is given.
pub open spec fn called<F: Copy>(o: RouteOptions<F>, c: CallOptions<F>, zero: F) -> RouteOptions<F> {
    RouteOptions {
        verbose: c.verbose,
        allow_congestion: c.allow_congestion,
        grid_origin: match c.grid_origin {
            Some(g) => g,
            None => o.grid_origin,
        },
        skip_large_fanout: match c.skip_large_fanout {
            Some(n) => n,
            None => o.skip_large_fanout,
        },
        congestion_iterations: match c.congestion_iterations {
            Some(n) => n,
            None => o.congestion_iterations,
        },
        critical_nets_percentage: match c.critical_nets_percentage {
            Some(p) => if o.has_liberty { p } else { zero },
            None => o.critical_nets_percentage,
        },
        ..o
    }
}

/// Whether a list holds the names that patterns match.
pub open spec fn are_named(v: Seq<String>, patterns: Seq<String>, names: Seq<String>) -> bool {
    texts(v) == all_matching(patterns, names, patterns.len() as int).map_values(|k: usize| names[k as int]@)
}

/// Whether options, and what is left to do, follow from a step.
pub open spec fn steps_to<F: Copy>(s: JobStep<F>, names: Seq<String>, zero: F, store: Seq<StoredGuides>, o: RouteOptions<F>, now: RouteOptions<F>, a: JobAction<F>) -> bool {
    match s {
        JobStep::SetRoutingLayers { signal, clock } => now == o && a == JobAction::<F>::SetLayers { signal, clock },
        JobStep::LayerAdjustment { lo, hi, value } => now == o && a == JobAction::<F>::AdjustLayers { lo, hi, value },
        JobStep::GlobalAdjustment { value } => now == (RouteOptions { adjustment: value, ..o }) && a == JobAction::<F>::Done,
        JobStep::RegionAdjustment(r) => {
            &&& now.region_adjustments@ == o.region_adjustments@.push(r)
            &&& now == (RouteOptions { region_adjustments: now.region_adjustments, ..o })
            &&& a == JobAction::<F>::Done
        },
        JobStep::RoutingAlpha { alpha, min_fanout } => {
            &&& a == JobAction::<F>::Done
            &&& match min_fanout {
                Some(n) => now == (RouteOptions { min_fanout_alpha: Some((n, alpha)), ..o }),
                None => now == (RouteOptions { alpha, ..o }),
            }
        },
        JobStep::NetsToRoute { patterns } => {
            &&& a == JobAction::<F>::Done
            &&& now.nets_to_route matches Some(v) && are_named(v@, patterns@, names)
            &&& now == (RouteOptions { nets_to_route: now.nets_to_route, ..o })
        },
        JobStep::GlobalRoute(c) => now == called(o, c, zero) && a == JobAction::<F>::Route,
        JobStep::WriteGuides { path } => {
            &&& now == o
            &&& a matches JobAction::Write { path: to, text } && to == path && exists|order: Seq<usize>| #[trigger] is_name_order(store, order, store.len() as int) && text@ == guides_text(
                store, order, order.len() as int)
        },
        JobStep::Unknown { quoted } => {
            &&& now == o
            &&& a matches JobAction::Fail(Fail::Refused(why)) && why@ == "step "@ + quoted@ + " is not modelled"@
        },
    }
}

impl<F: Copy> Job<F> {
    pub open spec fn wf(&self) -> bool {
        named_once(self.guides@)
    }

    /// A job before its first step.
    pub fn new(options: RouteOptions<F>) -> (j: Self)
        ensures
            j.wf(),
            j.options == options,
            j.guides@.len() == 0,
            j.calls@.len() == 0,
    {
        Job { options, guides: Vec::new(), calls: Vec::new() }
    }

    /// Takes a step: what it says about the options is taken over, and what is left to do is given back.
    pub fn step(&mut self, s: JobStep<F>, names: &Vec<String>, zero: F) -> (a: JobAction<F>)
        requires
            old(self).wf(),
        ensures
            final(self).wf(),
            final(self).guides == old(self).guides,
            final(self).calls == old(self).calls,
            steps_to(s, names@, zero, old(self).guides@, old(self).options, final(self).options, a),
    {
        match s {
            JobStep::SetRoutingLayers { signal, clock } => JobAction::SetLayers { signal, clock },
            JobStep::LayerAdjustment { lo, hi, value } => JobAction::AdjustLayers { lo, hi, value },
            JobStep::GlobalAdjustment { value } => {
                self.options.adjustment = value;
                JobAction::Done
            },
            JobStep::RegionAdjustment(r) => {
                self.options.region_adjustments.push(r);
                JobAction::Done
            },
            JobStep::RoutingAlpha { alpha, min_fanout } => {
                match min_fanout {
                    Some(n) => {
                        self.options.min_fanout_alpha = Some((n, alpha));
                    },
                    None => {
                        self.options.alpha = alpha;
                    },
                }
                JobAction::Done
            },
            JobStep::NetsToRoute { patterns } => {
                self.options.nets_to_route = Some(names_of(&patterns, names));
                JobAction::Done
            },
            JobStep::GlobalRoute(c) => {
                self.options.verbose = c.verbose;
                self.options.allow_congestion = c.allow_congestion;
                if let Some(g) = c.grid_origin {
                    self.options.grid_origin = g;
                }
                if let Some(n) = c.skip_large_fanout {
                    self.options.skip_large_fanout = n;
                }
                if let Some(n) = c.congestion_iterations {
                    self.options.congestion_iterations = n;
                }
                if let Some(p) = c.critical_nets_percentage {
                    self.options.critical_nets_percentage = if self.options.has_liberty { p } else { zero };
                }
                JobAction::Route
            },
            JobStep::WriteGuides { path } => JobAction::Write { path, text: write_guides(&self.guides) },
            JobStep::Unknown { quoted } => {
                let mut why = String::from_str("step ");
                why.append(quoted.as_str());
                why.append(" is not modelled");
                JobAction::Fail(Fail::Refused(why))
            },
        }
    }

    /// Takes what a call of the router gave: its guides and its report. Congestion that is not allowed ends the
    /// job, with the guides kept.
    pub fn routed(&mut self, guides: Vec<StoredGuides>, total_overflow: i32, congested: bool) -> (r: Result<(), Fail>)
        requires
            old(self).wf(),
        ensures
            final(self).wf(),
            final(self).options == old(self).options,
            final(self).guides@ == all_put_in(old(self).guides@, guides@, guides@.len() as int),
            final(self).calls@ == old(self).calls@.push(CallReport { nets: guides@.len() as usize, total_overflow, congested }),
            match r {
                Ok(()) => total_overflow <= 0 || old(self).options.allow_congestion,
                Err(f) => {
                    &&& total_overflow > 0 && !old(self).options.allow_congestion
                    &&& f matches Fail::Error(why) && why@ == "GRT-0116: Global routing finished with congestion"@
                },
            },
    {
        let ghost (s0, gs) = (self.guides@, guides@);
        let n: usize = guides.len();
        let mut rest = reversed(guides);
        let mut k: usize = 0;
        while k < n
            invariant
                k <= n == gs.len(),
                self.wf(),
                self.options == old(self).options,
                self.calls == old(self).calls,
                self.guides@ == all_put_in(s0, gs, k as int),
                rest@ == gs.skip(k as int).reverse(),
            decreases n - k,
        {
            assert(rest@.last() == gs[k as int]);
            let g = match rest.pop() {
                Some(g) => g,
                None => {
                    assert(false);
                    return Ok(());
                },
            };
            put(&mut self.guides, g);
            k += 1;
            assert(rest@ =~= gs.skip(k as int).reverse());
        }
        self.calls.push(CallReport { nets: n, total_overflow, congested });
        if total_overflow > 0 && !self.options.allow_congestion {
            return Err(Fail::Error(String::from_str("GRT-0116: Global routing finished with congestion")));
        }
        Ok(())
    }
}

fn names_of(patterns: &Vec<String>, names: &Vec<String>) -> (v: Vec<String>)
    ensures
        are_named(v@, patterns@, names@),
{
    let ids = nets_to_route(patterns, names);
    let total: usize = names.len();
    proof {
        assert(total == names@.len());
        lemma_matching_in(patterns@, names@, patterns@.len() as int);
    }
    let mut v: Vec<String> = Vec::new();
    let mut k: usize = 0;
    while k < ids.len()
        invariant
            k <= ids@.len(),
            forall|j: int| 0 <= j < ids@.len() ==> (#[trigger] ids@[j]) < names@.len(),
            texts(v@) == ids@.take(k as int).map_values(|k: usize| names@[k as int]@),
        decreases ids@.len() - k,
    {
        assert(ids@[k as int] < names@.len());
        push_text(&mut v, String::from_str(names[ids[k]].as_str()));
        k += 1;
        assert(texts(v@) =~= ids@.take(k as int).map_values(|k: usize| names@[k as int]@));
    }
    assert(ids@.take(k as int) =~= ids@);
    v
}

proof fn lemma_matching_in(patterns: Seq<String>, names: Seq<String>, k: int)
    requires
        0 <= k <= patterns.len(),
        names.len() <= usize::MAX,
    ensures
        forall|j: int| 0 <= j < all_matching(patterns, names, k).len() ==> (#[trigger] all_matching(patterns, names, k)[j]) < names.len(),
    decreases k,
{
    if k > 0 {
        lemma_matching_in(patterns, names, k - 1);
        lemma_matched_in(patterns[k - 1]@, names, names.len() as int);
        let (s, before) = (all_matching(patterns, names, k), all_matching(patterns, names, k - 1));
        let more = matching(patterns[k - 1]@, names, names.len() as int);
        assert forall|j: int| 0 <= j < s.len() implies (#[trigger] s[j]) < names.len() by {
            if j < before.len() {
                assert(s[j] == before[j]);
            } else {
                assert(s[j] == more[j - before.len()]);
            }
        }
    }
}

proof fn lemma_matched_in(p: Seq<char>, names: Seq<String>, k: int)
    requires
        0 <= k <= names.len() <= usize::MAX,
    ensures
        forall|j: int| 0 <= j < matching(p, names, k).len() ==> (#[trigger] matching(p, names, k)[j]) < k,
    decreases k,
{
    if k > 0 {
        lemma_matched_in(p, names, k - 1);
        let (s, before) = (matching(p, names, k), matching(p, names, k - 1));
        assert forall|j: int| 0 <= j < s.len() implies (#[trigger] s[j]) < k by {
            if j < before.len() {
                assert(s[j] == before[j]);
            }
        }
    }
}

/// A layer's routing level as a step asks for it: refused where the layer is none that is routed.
pub fn routing_level(name: &str, level: i32) -> (r: Result<i32, Fail>)
    ensures
        match r {
            Ok(l) => level > 0 && l == level,
            Err(f) => level <= 0 && (f matches Fail::Error(why) && why@ == name@ + " is not a routing layer"@),
        },
{
    if level <= 0 {
        let mut why = String::from_str(name);
        why.append(" is not a routing layer");
        return Err(Fail::Error(why));
    }
    Ok(level)
}

/// The guides of a net are found at its first place in the store, and wherever it has some.
pub proof fn guides_are_found_where_a_net_first_stands(store: Seq<StoredGuides>, net: Seq<char>, k: int)
    requires
        0 <= k <= store.len(),
    ensures
        is_first_of(guides_at(store, net, k), k, store.len() as int, |i: int| store[i].net@ == net),
    decreases store.len() - k,
{
    if k < store.len() {
        guides_are_found_where_a_net_first_stands(store, net, k + 1);
    }
}

} // verus!
