//! The driver around setup, routing and finish: whether there is anything to route, the layer range,
//! and the resources report.

use crate::lists::{all_of, lemma_all_next, lemma_all_none, lemma_sum_next, lemma_sum_none, sum_of};
use vstd::prelude::*;
use vstd::string::StringExecFns;

use crate::text::{dec, left_aligned, push_int_right, push_left_aligned, push_right_aligned, push_text, right_aligned, texts};

verus! {

/// Whether a net has two instance terminals, two block terminals, or one of each.
pub open spec fn routable(n: (usize, usize)) -> bool {
    n.0 > 1 || n.1 > 1 || (n.0 > 0 && n.1 > 0)
}

/// Whether any net is worth routing, from its numbers of instance and block terminals.
pub fn has_routable_nets(nets: &[(usize, usize)]) -> (r: bool)
    ensures
        r == exists|i: int| 0 <= i < nets@.len() && routable(#[trigger] nets@[i]),
{
    let mut i: usize = 0;
    while i < nets.len()
        invariant
            i <= nets@.len(),
            forall|j: int| 0 <= j < i ==> !routable(#[trigger] nets@[j]),
        decreases nets@.len() - i,
    {
        let (a, b) = nets[i];
        if a > 1 || b > 1 || (a > 0 && b > 0) {
            assert(routable(nets@[i as int]));
            return true;
        }
        i += 1;
    }
    false
}

/// The warning that there is nothing to route.
pub const GRT_7: &'static str = "[WARNING GRT-0007] Design does not have any routable net (with at least 2 terms)";

/// The length of the unbroken run of levels, from the first, that have a track grid, among the first
/// `n`.
pub open spec fn tracked_run(s: Seq<bool>, n: int) -> int
    decreases n,
{
    if n <= 0 {
        0
    } else {
        let k = tracked_run(s, n - 1);
        if k == n - 1 && s[n - 1] { n } else { k }
    }
}

proof fn lemma_run(s: Seq<bool>, k: int, n: int)
    requires
        0 <= k <= n,
        tracked_run(s, k) == k,
        k == n || !s[k],
    ensures
        tracked_run(s, n) == k,
    decreases n,
{
    if k < n - 1 {
        lemma_run(s, k, n - 1);
    }
}

/// The last routing level of the unbroken run, from level 1, that has a track grid; `None` when
/// level 1 has none.
pub fn compute_max_routing_layer(has_track_grid: &[bool]) -> (r: Option<i32>)
    requires
        has_track_grid@.len() <= i32::MAX,
    ensures
        ({
            let n = tracked_run(has_track_grid@, has_track_grid@.len() as int);
            match r {
                Some(l) => l == n && n > 0,
                None => n == 0,
            }
        }),
{
    let mut n: usize = 0;
    while n < has_track_grid.len() && has_track_grid[n]
        invariant
            n <= has_track_grid@.len(),
            tracked_run(has_track_grid@, n as int) == n,
        decreases has_track_grid@.len() - n,
    {
        n += 1;
    }
    proof {
        lemma_run(has_track_grid@, n as int, has_track_grid@.len() as int);
    }
    if n > 0 { Some(n as i32) } else { None }
}

/// The block's max routing layer, computed where it is unset (-1), and the layer range. The minimum
/// takes the clock minimum only when that is set; the maximum takes the clock maximum regardless.
pub fn get_min_max_layer(block_max: i32, has_track_grid: &[bool], block_min: i32, clock_min: i32, clock_max: i32) -> (r: Option<(i32, i32, i32)>)
    requires
        has_track_grid@.len() <= i32::MAX,
    ensures
        ({
            let run = tracked_run(has_track_grid@, has_track_grid@.len() as int);
            let m = if block_max == -1 { run } else { block_max as int };
            match r {
                None => block_max == -1 && run == 0,
                Some((new_max, min, max)) => {
                    &&& !(block_max == -1 && run == 0)
                    &&& new_max == m
                    &&& min == (if clock_min > 0 && clock_min < block_min { clock_min } else { block_min })
                    &&& max == (if clock_max > m { clock_max as int } else { m })
                },
            }
        }),
{
    let new_max: i32 = if block_max == -1 {
        match compute_max_routing_layer(has_track_grid) {
            Some(l) => l,
            None => {
                return None;
            },
        }
    } else {
        block_max
    };
    let min: i32 = if clock_min > 0 { block_min.min(clock_min) } else { block_min };
    Some((new_max, min, new_max.max(clock_max)))
}

/// One router layer's edges as the resources report reads them: capacity and real capacity per edge.
pub struct ResourceLayer<'a> {
    pub name: &'a str,
    pub horizontal: bool,
    /// Every horizontal 3D edge inside the grid.
    pub h_edges: &'a [(u16, u16)],
    /// Every vertical 3D edge inside the grid.
    pub v_edges: &'a [(u16, u16)],
}

/// The sum of the capacities, or of the real capacities, of the first `n` edges.
pub open spec fn cap_total(edges: Seq<(u16, u16)>, real_caps: bool, n: int) -> int
    decreases n,
{
    if n <= 0 {
        0
    } else {
        cap_total(edges, real_caps, n - 1) + (if real_caps { edges[n - 1].1 as int } else { edges[n - 1].0 as int })
    }
}

/// The resources a layer had: the real capacities along its preferred direction only.
pub open spec fn original_resources(l: ResourceLayer) -> int {
    let e = if l.horizontal { l.h_edges@ } else { l.v_edges@ };
    cap_total(e, true, e.len() as int)
}

/// The resources a layer has: the capacities in both directions.
pub open spec fn derated_resources(l: ResourceLayer) -> int {
    cap_total(l.h_edges@, false, l.h_edges@.len() as int) + cap_total(l.v_edges@, false, l.v_edges@.len() as int)
}

proof fn lemma_cap_total(edges: Seq<(u16, u16)>, real_caps: bool, a: int, b: int)
    requires
        0 <= a <= b,
    ensures
        0 <= cap_total(edges, real_caps, a) <= cap_total(edges, real_caps, b),
    decreases b,
{
    if b > 0 {
        if a < b {
            lemma_cap_total(edges, real_caps, a, b - 1);
        } else {
            lemma_cap_total(edges, real_caps, a - 1, b - 1);
        }
    }
}

fn sum_caps(edges: &[(u16, u16)], real_caps: bool, from: i32) -> (r: i32)
    requires
        from >= 0,
        from + cap_total(edges@, real_caps, edges@.len() as int) <= i32::MAX,
    ensures
        r == from + cap_total(edges@, real_caps, edges@.len() as int),
{
    let mut sum: i32 = from;
    let mut i: usize = 0;
    while i < edges.len()
        invariant
            i <= edges@.len(),
            from >= 0,
            from + cap_total(edges@, real_caps, edges@.len() as int) <= i32::MAX,
            sum == from + cap_total(edges@, real_caps, i as int),
        decreases edges@.len() - i,
    {
        proof {
            lemma_cap_total(edges@, real_caps, i + 1, edges@.len() as int);
            lemma_cap_total(edges@, real_caps, 0, i as int);
        }
        let (cap, real_cap) = edges[i];
        sum += if real_caps { real_cap as i32 } else { cap as i32 };
        i += 1;
    }
    sum
}

/// A layer's original and derated resources.
pub fn layer_resources(l: &ResourceLayer<'_>) -> (r: (i32, i32))
    requires
        original_resources(*l) <= i32::MAX,
        derated_resources(*l) <= i32::MAX,
    ensures
        r.0 == original_resources(*l),
        r.1 == derated_resources(*l),
{
    proof {
        lemma_cap_total(l.h_edges@, false, 0, l.h_edges@.len() as int);
        lemma_cap_total(l.v_edges@, false, 0, l.v_edges@.len() as int);
    }
    let original: i32 = if l.horizontal { sum_caps(l.h_edges, true, 0) } else { sum_caps(l.v_edges, true, 0) };
    let h: i32 = sum_caps(l.h_edges, false, 0);
    (original, sum_caps(l.v_edges, false, h))
}

/// A row of the resources table.
pub open spec fn resource_row(l: ResourceLayer, reduction: Seq<char>) -> Seq<char> {
    left_aligned(l.name@, 7) + "    "@ + left_aligned(if l.horizontal { "Horizontal"@ } else { "Vertical"@ }, 10) + "   "@
        + right_aligned(dec(original_resources(l)), 8) + "      "@ + right_aligned(dec(derated_resources(l)), 8) + "          "@
        + right_aligned(reduction, 3) + "%"@
}

/// The rows of the first `n` layers.
pub open spec fn resource_rows(layers: Seq<ResourceLayer>, reductions: Seq<String>, n: int) -> Seq<Seq<char>>
    decreases n,
{
    if n <= 0 {
        Seq::empty()
    } else {
        resource_rows(layers, reductions, n - 1).push(resource_row(layers[n - 1], reductions[n - 1]@))
    }
}

/// The lines before the rows of the resources report.
pub open spec fn resource_head() -> Seq<Seq<char>> {
    seq![
        Seq::empty(),
        "[INFO GRT-0053] Routing resources analysis:"@,
        "          Routing      Original      Derated      Resource"@,
        "Layer     Direction    Resources     Resources    Reduction (%)"@,
        "---------------------------------------------------------------"@,
    ]
}

/// Reports each layer's resources. `reductions` holds the share of the original resources that is
/// gone, per layer, as a percentage in two decimals.
pub fn report_resources(layers: &[ResourceLayer<'_>], reductions: &[String], log: &mut Vec<String>)
    requires
        reductions@.len() == layers@.len(),
        forall|i: int| 0 <= i < layers@.len() ==> original_resources(#[trigger] layers@[i]) <= i32::MAX && derated_resources(
            layers@[i]) <= i32::MAX,
    ensures
        texts(final(log)@) == (texts(old(log)@) + resource_head() + resource_rows(layers@, reductions@, layers@.len() as int)).push(
            "---------------------------------------------------------------"@,
        ).push(Seq::empty()),
{
    let ghost l0 = texts(log@);
    push_text(log, String::new());
    push_text(log, String::from_str("[INFO GRT-0053] Routing resources analysis:"));
    push_text(log, String::from_str("          Routing      Original      Derated      Resource"));
    push_text(log, String::from_str("Layer     Direction    Resources     Resources    Reduction (%)"));
    push_text(log, String::from_str("---------------------------------------------------------------"));
    assert(texts(log@) =~= l0 + resource_head() + resource_rows(layers@, reductions@, 0));
    let mut i: usize = 0;
    while i < layers.len()
        invariant
            i <= layers@.len(),
            reductions@.len() == layers@.len(),
            forall|i: int| 0 <= i < layers@.len() ==> original_resources(#[trigger] layers@[i]) <= i32::MAX && derated_resources(
                layers@[i]) <= i32::MAX,
            texts(log@) == l0 + resource_head() + resource_rows(layers@, reductions@, i as int),
        decreases layers@.len() - i,
    {
        let l = &layers[i];
        let (original, derated) = layer_resources(l);
        let mut s = String::new();
        push_left_aligned(&mut s, l.name, 7);
        s.append("    ");
        push_left_aligned(&mut s, if l.horizontal { "Horizontal" } else { "Vertical" }, 10);
        s.append("   ");
        push_int_right(&mut s, original as i64, 8);
        s.append("      ");
        push_int_right(&mut s, derated as i64, 8);
        s.append("          ");
        push_right_aligned(&mut s, reductions[i].as_str(), 3);
        s.append("%");
        assert(s@ =~= resource_row(*l, reductions@[i as int]@));
        push_text(log, s);
        i += 1;
        assert(texts(log@) =~= l0 + resource_head() + resource_rows(layers@, reductions@, i as int));
    }
    push_text(log, String::from_str("---------------------------------------------------------------"));
    push_text(log, String::new());
    assert(texts(log@) =~= (l0 + resource_head() + resource_rows(layers@, reductions@, layers@.len() as int)).push(
        "---------------------------------------------------------------"@,
    ).push(Seq::empty()));
}

/// The resources of a layer are the sum of its edges' capacities, real or reduced as asked.
pub proof fn the_resources_are_those_of_all_edges(edges: Seq<(u16, u16)>, real_caps: bool, n: int)
    requires
        0 <= n,
    ensures
        cap_total(edges, real_caps, n) == sum_of(
            n,
            |k: int| if real_caps { edges[k].1 as int } else { edges[k].0 as int },
        ),
    decreases n,
{
    let f = |k: int| if real_caps { edges[k].1 as int } else { edges[k].0 as int };
    if n > 0 {
        the_resources_are_those_of_all_edges(edges, real_caps, n - 1);
        lemma_sum_next(n - 1, f);
    } else {
        lemma_sum_none(f);
    }
}

/// The report has a row for every layer, with that layer's reduction, in order.
pub proof fn every_layer_has_its_row(layers: Seq<ResourceLayer>, reductions: Seq<String>, n: int)
    requires
        0 <= n,
    ensures
        resource_rows(layers, reductions, n) == all_of(
            n,
            |k: int| seq![resource_row(layers[k], reductions[k]@)],
        ),
    decreases n,
{
    let f = |k: int| seq![resource_row(layers[k], reductions[k]@)];
    if n > 0 {
        every_layer_has_its_row(layers, reductions, n - 1);
        lemma_all_next(n - 1, f);
    } else {
        lemma_all_none(f);
    }
    assert(resource_rows(layers, reductions, n) =~= all_of(n, f));
}

} // verus!
