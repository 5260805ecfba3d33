//! The reports and the verdict at the end of a run: congestion, wirelength, routed nets, the
//! suggested adjustment.

use crate::lists::{is_least_of, is_most_of, lemma_sum_next, lemma_sum_none, sum_of};
use vstd::prelude::*;
use vstd::string::StringExecFns;

use crate::grids::{fits, tdiv};
use crate::single::{signed_single, signed_single_of};
use crate::text::{
    dec, dec_nat, left_aligned, push_int, push_int_right, push_left_aligned, push_nat, push_right_aligned, push_text,
    right_aligned, texts,
};

verus! {

/// The wirelength of the first `n` segments: each segment that moves counts its length plus one cell.
pub open spec fn net_wirelength(lengths: Seq<i32>, tile: int, n: int) -> int
    decreases n,
{
    if n <= 0 {
        0
    } else {
        net_wirelength(lengths, tile, n - 1) + (if lengths[n - 1] > 0 { lengths[n - 1] + tile } else { 0 })
    }
}

/// Whether a net's wirelength is summed within `i32`.
pub open spec fn net_wirelength_fits(lengths: Seq<i32>, tile: int) -> bool {
    &&& forall|i: int| 0 <= i < lengths.len() && lengths[i] > 0 ==> fits((#[trigger] lengths[i]) + tile)
    &&& forall|n: int| 0 <= n <= lengths.len() ==> fits(#[trigger] net_wirelength(lengths, tile, n))
}

/// A net's wirelength from its segments' lengths; vias, which do not move, count nothing.
pub fn compute_net_wirelength(segment_lengths: &[i32], tile_size: i32) -> (r: i32)
    requires
        net_wirelength_fits(segment_lengths@, tile_size as int),
    ensures
        r == net_wirelength(segment_lengths@, tile_size as int, segment_lengths@.len() as int),
{
    let mut sum: i32 = 0;
    let mut i: usize = 0;
    while i < segment_lengths.len()
        invariant
            i <= segment_lengths@.len(),
            net_wirelength_fits(segment_lengths@, tile_size as int),
            sum == net_wirelength(segment_lengths@, tile_size as int, i as int),
        decreases segment_lengths@.len() - i,
    {
        let l: i32 = segment_lengths[i];
        proof {
            assert(fits(net_wirelength(segment_lengths@, tile_size as int, i + 1)));
        }
        if l > 0 {
            sum += l + tile_size;
        }
        i += 1;
    }
    sum
}

/// The wirelength of the first `n` routes.
pub open spec fn total_wirelength(routes: Seq<Vec<i32>>, tile: int, n: int) -> int
    decreases n,
{
    if n <= 0 {
        0
    } else {
        total_wirelength(routes, tile, n - 1) + net_wirelength(routes[n - 1]@, tile, routes[n - 1]@.len() as int)
    }
}

/// The total wirelength in microns, truncated, reported when verbose.
pub fn compute_wirelength(routes: &[Vec<i32>], tile_size: i32, def_units: i32, verbose: bool, log: &mut Vec<String>) -> (um: i64)
    requires
        def_units != 0,
        forall|i: int| 0 <= i < routes@.len() ==> net_wirelength_fits((#[trigger] routes@[i])@, tile_size as int),
        forall|n: int| 0 <= n <= routes@.len() ==> i64::MIN < #[trigger] total_wirelength(routes@, tile_size as int, n) <= i64::MAX,
    ensures
        ({
            let total = total_wirelength(routes@, tile_size as int, routes@.len() as int);
            um == (if def_units > 0 { tdiv(total, def_units as int) } else { -tdiv(total, -def_units) })
        }),
        texts(final(log)@) == (if verbose {
            texts(old(log)@).push("[INFO GRT-0018] Total wirelength: "@ + dec(um as int) + " um"@)
        } else {
            texts(old(log)@)
        }),
{
    let mut total: i64 = 0;
    let mut i: usize = 0;
    while i < routes.len()
        invariant
            i <= routes@.len(),
            forall|i: int| 0 <= i < routes@.len() ==> net_wirelength_fits((#[trigger] routes@[i])@, tile_size as int),
            forall|n: int| 0 <= n <= routes@.len() ==> i64::MIN < #[trigger] total_wirelength(routes@, tile_size as int, n) <= i64::MAX,
            total == total_wirelength(routes@, tile_size as int, i as int),
        decreases routes@.len() - i,
    {
        proof {
            assert(net_wirelength_fits(routes@[i as int]@, tile_size as int));
            assert(i64::MIN < total_wirelength(routes@, tile_size as int, i + 1) <= i64::MAX);
        }
        total += compute_net_wirelength(routes[i].as_slice(), tile_size) as i64;
        i += 1;
    }
    let d: i64 = def_units as i64;
    assert(i64::MIN < total);
    let um: i64 = if d > 0 { total / d } else { -(total / (-d)) };
    proof {
        let m = if total >= 0 { total as int } else { -total };
        let e = if d > 0 { d as int } else { -d };
        assert(0 <= m / e <= m) by (nonlinear_arith)
            requires
                e >= 1,
                m >= 0,
        ;
    }
    if verbose {
        let mut s = String::from_str("[INFO GRT-0018] Total wirelength: ");
        push_int(&mut s, um);
        s.append(" um");
        push_text(log, s);
    }
    um
}

/// Reports the number of routed nets when verbose.
pub fn report_routed_nets(routes: usize, verbose: bool, log: &mut Vec<String>)
    ensures
        texts(final(log)@) == (if verbose {
            texts(old(log)@).push("[INFO GRT-0014] Routed nets: "@ + dec_nat(routes as nat))
        } else {
            texts(old(log)@)
        }),
{
    if verbose {
        let mut s = String::from_str("[INFO GRT-0014] Routed nets: ");
        push_nat(&mut s, routes as u64);
        push_text(log, s);
    }
}

/// One router layer's edges as the congestion report reads them: capacity and usage per edge.
pub struct CongestionLayer<'a> {
    pub name: &'a str,
    /// Every horizontal 3D edge inside the grid.
    pub h_edges: &'a [(u16, u16)],
    /// Every vertical 3D edge inside the grid.
    pub v_edges: &'a [(u16, u16)],
}

/// What a layer's edges come to.
#[derive(Debug, Clone, Copy, PartialEq, Eq, Structural)]
pub struct LayerTotals {
    pub resource: i32,
    pub demand: i32,
    pub overflow: i32,
    pub max_h: i32,
    pub max_v: i32,
}

/// The sum of the capacities (`pick` 0), usages (1) or overflows (2) of the first `n` edges.
pub open spec fn edge_sum(edges: Seq<(u16, u16)>, pick: int, n: int) -> int
    decreases n,
{
    if n <= 0 {
        0
    } else {
        let (cap, usage) = edges[n - 1];
        edge_sum(edges, pick, n - 1) + (if pick == 0 {
            cap as int
        } else if pick == 1 {
            usage as int
        } else if usage > cap {
            usage - cap
        } else {
            0
        })
    }
}

/// The largest overflow of the first `n` edges.
pub open spec fn edge_max(edges: Seq<(u16, u16)>, n: int) -> int
    decreases n,
{
    if n <= 0 {
        0
    } else {
        let (cap, usage) = edges[n - 1];
        let m = edge_max(edges, n - 1);
        if usage - cap > m { usage - cap } else { m }
    }
}

/// A layer's sum over both directions.
pub open spec fn layer_sum(l: CongestionLayer, pick: int) -> int {
    edge_sum(l.h_edges@, pick, l.h_edges@.len() as int) + edge_sum(l.v_edges@, pick, l.v_edges@.len() as int)
}

/// Whether a layer's sums are machine integers.
pub open spec fn layer_fits(l: CongestionLayer) -> bool {
    layer_sum(l, 0) <= i32::MAX && layer_sum(l, 1) <= i32::MAX && layer_sum(l, 2) <= i32::MAX
}

/// Whether the totals are those of a layer.
pub open spec fn totals_of(t: LayerTotals, l: CongestionLayer) -> bool {
    &&& t.resource == layer_sum(l, 0)
    &&& t.demand == layer_sum(l, 1)
    &&& t.overflow == layer_sum(l, 2)
    &&& t.max_h == edge_max(l.h_edges@, l.h_edges@.len() as int)
    &&& t.max_v == edge_max(l.v_edges@, l.v_edges@.len() as int)
}

proof fn lemma_edge_sum(edges: Seq<(u16, u16)>, pick: int, a: int, b: int)
    requires
        0 <= a <= b,
    ensures
        0 <= edge_sum(edges, pick, a) <= edge_sum(edges, pick, b),
    decreases b,
{
    if b > 0 {
        if a < b {
            lemma_edge_sum(edges, pick, a, b - 1);
        } else {
            lemma_edge_sum(edges, pick, a - 1, b - 1);
        }
    }
}

/// The sums and the largest overflow of one direction's edges, added to what came before.
fn edge_totals(edges: &[(u16, u16)], r0: i32, d0: i32, o0: i32) -> (t: (i32, i32, i32, i32))
    requires
        0 <= r0 && r0 + edge_sum(edges@, 0, edges@.len() as int) <= i32::MAX,
        0 <= d0 && d0 + edge_sum(edges@, 1, edges@.len() as int) <= i32::MAX,
        0 <= o0 && o0 + edge_sum(edges@, 2, edges@.len() as int) <= i32::MAX,
    ensures
        t.0 == r0 + edge_sum(edges@, 0, edges@.len() as int),
        t.1 == d0 + edge_sum(edges@, 1, edges@.len() as int),
        t.2 == o0 + edge_sum(edges@, 2, edges@.len() as int),
        t.3 == edge_max(edges@, edges@.len() as int),
{
    let (mut r, mut d, mut o, mut m): (i32, i32, i32, i32) = (r0, d0, o0, 0);
    let mut i: usize = 0;
    while i < edges.len()
        invariant
            i <= edges@.len(),
            0 <= r0 && r0 + edge_sum(edges@, 0, edges@.len() as int) <= i32::MAX,
            0 <= d0 && d0 + edge_sum(edges@, 1, edges@.len() as int) <= i32::MAX,
            0 <= o0 && o0 + edge_sum(edges@, 2, edges@.len() as int) <= i32::MAX,
            r == r0 + edge_sum(edges@, 0, i as int),
            d == d0 + edge_sum(edges@, 1, i as int),
            o == o0 + edge_sum(edges@, 2, i as int),
            m == edge_max(edges@, i as int),
        decreases edges@.len() - i,
    {
        let (cap, usage) = edges[i];
        proof {
            lemma_edge_sum(edges@, 0, i + 1, edges@.len() as int);
            lemma_edge_sum(edges@, 1, i + 1, edges@.len() as int);
            lemma_edge_sum(edges@, 2, i + 1, edges@.len() as int);
            lemma_edge_sum(edges@, 0, 0, i as int);
            lemma_edge_sum(edges@, 1, 0, i as int);
            lemma_edge_sum(edges@, 2, 0, i as int);
        }
        r += cap as i32;
        d += usage as i32;
        let over: i32 = usage as i32 - cap as i32;
        if over > 0 {
            o += over;
        }
        m = m.max(over);
        i += 1;
    }
    (r, d, o, m)
}

/// What a layer's edges come to, over both directions.
pub fn layer_totals(l: &CongestionLayer<'_>) -> (t: LayerTotals)
    requires
        layer_fits(*l),
    ensures
        totals_of(t, *l),
{
    proof {
        lemma_edge_sum(l.h_edges@, 0, 0, l.h_edges@.len() as int);
        lemma_edge_sum(l.h_edges@, 1, 0, l.h_edges@.len() as int);
        lemma_edge_sum(l.h_edges@, 2, 0, l.h_edges@.len() as int);
        lemma_edge_sum(l.v_edges@, 0, 0, l.v_edges@.len() as int);
        lemma_edge_sum(l.v_edges@, 1, 0, l.v_edges@.len() as int);
        lemma_edge_sum(l.v_edges@, 2, 0, l.v_edges@.len() as int);
    }
    let (r, d, o, mh) = edge_totals(l.h_edges, 0, 0, 0);
    let (r, d, o, mv) = edge_totals(l.v_edges, r, d, o);
    LayerTotals { resource: r, demand: d, overflow: o, max_h: mh, max_v: mv }
}

/// The sum over the first `n` layers of a layer's sum (`pick` 0 to 2) or of its largest horizontal
/// (3) or vertical (4) overflow.
pub open spec fn layers_sum(layers: Seq<CongestionLayer>, pick: int, n: int) -> int
    decreases n,
{
    if n <= 0 {
        0
    } else {
        let l = layers[n - 1];
        layers_sum(layers, pick, n - 1) + (if pick == 3 {
            edge_max(l.h_edges@, l.h_edges@.len() as int)
        } else if pick == 4 {
            edge_max(l.v_edges@, l.v_edges@.len() as int)
        } else {
            layer_sum(l, pick)
        })
    }
}

proof fn lemma_edge_max(edges: Seq<(u16, u16)>, n: int)
    ensures
        edge_max(edges, n) >= 0,
    decreases n,
{
    if n > 0 {
        lemma_edge_max(edges, n - 1);
    }
}

proof fn lemma_layers_sum(layers: Seq<CongestionLayer>, pick: int, a: int, b: int)
    requires
        0 <= a <= b,
    ensures
        0 <= layers_sum(layers, pick, a) <= layers_sum(layers, pick, b),
    decreases b,
{
    if b > 0 {
        if a < b {
            lemma_layers_sum(layers, pick, a, b - 1);
        } else {
            lemma_layers_sum(layers, pick, a - 1, b - 1);
        }
        let l = layers[b - 1];
        lemma_edge_sum(l.h_edges@, pick, 0, l.h_edges@.len() as int);
        lemma_edge_sum(l.v_edges@, pick, 0, l.v_edges@.len() as int);
        lemma_edge_max(l.h_edges@, l.h_edges@.len() as int);
        lemma_edge_max(l.v_edges@, l.v_edges@.len() as int);
    }
}

/// A row of the congestion table.
pub open spec fn congestion_row(head: Seq<char>, r: int, d: int, usage: Seq<char>, mh: int, mv: int, o: int) -> Seq<char> {
    head + right_aligned(dec(r), 9) + "       "@ + right_aligned(dec(d), 7) + "        "@ + right_aligned(usage, 8)
        + "%            "@ + right_aligned(dec(mh), 2) + " / "@ + right_aligned(dec(mv), 2) + " / "@ + right_aligned(dec(o), 2)
}

/// The row of one layer.
pub open spec fn layer_row(l: CongestionLayer, usage: Seq<char>) -> Seq<char> {
    congestion_row(
        left_aligned(l.name@, 7) + "      "@, layer_sum(l, 0), layer_sum(l, 1), usage,
        edge_max(l.h_edges@, l.h_edges@.len() as int), edge_max(l.v_edges@, l.v_edges@.len() as int), layer_sum(l, 2),
    )
}

/// The rows of the first `n` layers.
pub open spec fn layer_rows(layers: Seq<CongestionLayer>, usages: Seq<String>, n: int) -> Seq<Seq<char>>
    decreases n,
{
    if n <= 0 { Seq::empty() } else { layer_rows(layers, usages, n - 1).push(layer_row(layers[n - 1], usages[n - 1]@)) }
}

/// The lines before the rows of the congestion report.
pub open spec fn congestion_head() -> Seq<Seq<char>> {
    seq![
        Seq::empty(),
        "[INFO GRT-0096] Final congestion report:"@,
        "Layer         Resource        Demand        Usage (%)    Max H / Max V / Total Congestion"@,
        "---------------------------------------------------------------------------------------"@,
    ]
}

/// The congestion report.
pub open spec fn congestion_report(layers: Seq<CongestionLayer>, usages: Seq<String>, total_usage: Seq<char>) -> Seq<Seq<char>> {
    let n = layers.len() as int;
    (congestion_head() + layer_rows(layers, usages, n)).push(
        "---------------------------------------------------------------------------------------"@,
    ).push(
        congestion_row(
            "Total        "@, layers_sum(layers, 0, n), layers_sum(layers, 1, n), total_usage, layers_sum(layers, 3, n),
            layers_sum(layers, 4, n), layers_sum(layers, 2, n),
        ),
    ).push(Seq::empty())
}

fn push_row(log: &mut Vec<String>, head: String, r: i32, d: i32, usage: &str, mh: i32, mv: i32, o: i32)
    ensures
        texts(final(log)@) == texts(old(log)@).push(
            congestion_row(head@, r as int, d as int, usage@, mh as int, mv as int, o as int)),
{
    let mut s = head;
    push_int_right(&mut s, r as i64, 9);
    s.append("       ");
    push_int_right(&mut s, d as i64, 7);
    s.append("        ");
    push_right_aligned(&mut s, usage, 8);
    s.append("%            ");
    push_int_right(&mut s, mh as i64, 2);
    s.append(" / ");
    push_int_right(&mut s, mv as i64, 2);
    s.append(" / ");
    push_int_right(&mut s, o as i64, 2);
    push_text(log, s);
}

/// Reports the congestion: per layer its resources, demand and overflow over both directions and the
/// largest horizontal and vertical overflow, then their totals. `usages` holds the demand of each
/// layer as a percentage of its resources, in two decimals, and `total_usage` that of all.
pub fn report_congestion(layers: &[CongestionLayer<'_>], usages: &[String], total_usage: &str, log: &mut Vec<String>)
    requires
        usages@.len() == layers@.len(),
        forall|p: int| 0 <= p <= 4 ==> #[trigger] layers_sum(layers@, p, layers@.len() as int) <= i32::MAX,
    ensures
        texts(final(log)@) == texts(old(log)@) + congestion_report(layers@, usages@, total_usage@),
{
    let ghost l0 = texts(log@);
    push_text(log, String::new());
    push_text(log, String::from_str("[INFO GRT-0096] Final congestion report:"));
    push_text(log, String::from_str("Layer         Resource        Demand        Usage (%)    Max H / Max V / Total Congestion"));
    push_text(log, String::from_str("---------------------------------------------------------------------------------------"));
    assert(texts(log@) =~= l0 + congestion_head() + layer_rows(layers@, usages@, 0));
    let (mut tr, mut td, mut to, mut th, mut tv): (i32, i32, i32, i32, i32) = (0, 0, 0, 0, 0);
    let mut i: usize = 0;
    let ghost n = layers@.len() as int;
    while i < layers.len()
        invariant
            i <= layers@.len() == n,
            usages@.len() == layers@.len(),
            forall|p: int| 0 <= p <= 4 ==> #[trigger] layers_sum(layers@, p, n) <= i32::MAX,
            tr == layers_sum(layers@, 0, i as int),
            td == layers_sum(layers@, 1, i as int),
            to == layers_sum(layers@, 2, i as int),
            th == layers_sum(layers@, 3, i as int),
            tv == layers_sum(layers@, 4, i as int),
            texts(log@) == l0 + congestion_head() + layer_rows(layers@, usages@, i as int),
        decreases n - i,
    {
        proof {
            assert forall|p: int| 0 <= p <= 4 implies 0 <= layers_sum(layers@, p, i as int) <= #[trigger] layers_sum(layers@, p, i + 1) <= i32::MAX by {
                lemma_layers_sum(layers@, p, i as int, i + 1);
                lemma_layers_sum(layers@, p, i + 1, n);
                assert(layers_sum(layers@, p, n) <= i32::MAX);
            }
            assert(layers_sum(layers@, 0, i + 1) <= i32::MAX);
            assert(layers_sum(layers@, 1, i + 1) <= i32::MAX);
            assert(layers_sum(layers@, 2, i + 1) <= i32::MAX);
            assert(layers_sum(layers@, 3, i + 1) <= i32::MAX);
            assert(layers_sum(layers@, 4, i + 1) <= i32::MAX);
        }
        let l = &layers[i];
        let t = layer_totals(l);
        tr += t.resource;
        td += t.demand;
        to += t.overflow;
        th += t.max_h;
        tv += t.max_v;
        let mut head = String::new();
        push_left_aligned(&mut head, l.name, 7);
        head.append("      ");
        assert(head@ =~= left_aligned(l.name@, 7) + "      "@);
        push_row(log, head, t.resource, t.demand, usages[i].as_str(), t.max_h, t.max_v, t.overflow);
        i += 1;
        assert(texts(log@) =~= l0 + congestion_head() + layer_rows(layers@, usages@, i as int));
    }
    push_text(log, String::from_str("---------------------------------------------------------------------------------------"));
    push_row(log, String::from_str("Total        "), tr, td, total_usage, th, tv, to);
    push_text(log, String::new());
    assert(texts(log@) =~= l0 + congestion_report(layers@, usages@, total_usage@));
}

/// One overflowing grid cell.
#[derive(Debug)]
pub struct CongestedGrid {
    /// 2D real capacity and usage.
    pub real_cap: i32,
    pub usage: i32,
    /// Per-layer 3D real capacity of the edge.
    pub layer_real_caps: Vec<i32>,
}

/// How many of the first `n` capacities in a row, from the start, are below a usage.
pub open spec fn too_small(caps: Seq<i32>, usage: int, n: int) -> int
    decreases n,
{
    if n <= 0 {
        0
    } else {
        let k = too_small(caps, usage, n - 1);
        if k == n - 1 && caps[n - 1] < usage { n } else { k }
    }
}

/// Whether the real capacity of a cell is below its usage, both in single precision.
pub open spec fn is_hopeless(g: CongestedGrid) -> bool {
    signed_single(g.real_cap as int) < signed_single(g.usage as int)
}

/// The adjustment a congested cell asks for: the first guess, less one for every guess in a row whose
/// adjusted capacity is below the usage, up to five. `None` where the real capacity is below the usage,
/// whatever the guess, and where there is no guess.
///
/// `adjusted_caps` holds the capacity left by the first guess and by each of the four guesses below
/// it.
pub fn cell_suggestion(g: &CongestedGrid, first_guess: Option<i32>, adjusted_caps: &[i32]) -> (r: Option<i32>)
    requires
        !is_hopeless(*g) ==> (first_guess matches Some(a) ==> a >= i32::MIN + 5 && adjusted_caps@.len() == 5),
    ensures
        is_hopeless(*g) ==> r is None,
        !is_hopeless(*g) ==> match first_guess {
            None => r is None,
            Some(a) => r == Some((if g.usage <= 0 { a as int } else { a - too_small(adjusted_caps@, g.usage as int, 5) }) as i32),
        },
{
    if signed_single_of(g.real_cap) < signed_single_of(g.usage) {
        return None;
    }
    match first_guess {
        None => None,
        Some(a) => {
            if g.usage <= 0 {
                return Some(a);
            }
            let mut k: usize = 0;
            while k < 5 && adjusted_caps[k] < g.usage
                invariant
                    k <= 5,
                    adjusted_caps@.len() == 5,
                    too_small(adjusted_caps@, g.usage as int, k as int) == k,
                decreases 5 - k,
            {
                k += 1;
            }
            proof {
                lemma_too_small(adjusted_caps@, g.usage as int, k as int, 5);
            }
            Some(a - k as i32)
        },
    }
}

proof fn lemma_too_small(caps: Seq<i32>, usage: int, k: int, n: int)
    requires
        0 <= k <= n,
        too_small(caps, usage, k) == k,
        k == n || caps[k] >= usage,
    ensures
        too_small(caps, usage, n) == k,
    decreases n,
{
    if k < n {
        if k < n - 1 {
            lemma_too_small(caps, usage, k, n - 1);
        }
    }
}

/// The least of the first `n` suggestions and 100.
pub open spec fn least_suggestion(s: Seq<Option<i32>>, n: int) -> int
    decreases n,
{
    if n <= 0 {
        100
    } else {
        let m = least_suggestion(s, n - 1);
        if s[n - 1]->0 < m { s[n - 1]->0 as int } else { m }
    }
}

/// Whether one of the suggestions is missing.
pub open spec fn one_missing(s: Seq<Option<i32>>) -> bool {
    exists|i: int| 0 <= i < s.len() && (#[trigger] s[i]) is None
}

fn least_of(s: &[Option<i32>]) -> (r: Option<i32>)
    ensures
        r is None <==> one_missing(s@),
        r matches Some(m) ==> m == least_suggestion(s@, s@.len() as int),
{
    let mut m: i32 = 100;
    let mut i: usize = 0;
    while i < s.len()
        invariant
            i <= s@.len(),
            forall|j: int| 0 <= j < i ==> (#[trigger] s@[j]) is Some,
            m == least_suggestion(s@, i as int),
        decreases s@.len() - i,
    {
        match s[i] {
            None => {
                assert(s@[i as int] is None);
                return None;
            },
            Some(a) => {
                m = m.min(a);
            },
        }
        i += 1;
    }
    Some(m)
}

/// The least suggestion over the overflowing horizontal cells and the vertical ones, each from 100;
/// `None` as soon as any cell has none.
pub fn compute_suggested_adjustment(horizontal: &[Option<i32>], vertical: &[Option<i32>]) -> (r: Option<i32>)
    ensures
        r is None <==> one_missing(horizontal@) || one_missing(vertical@),
        r matches Some(m) ==> {
            let (h, v) = (least_suggestion(horizontal@, horizontal@.len() as int), least_suggestion(vertical@, vertical@.len() as int));
            m == (if h < v { h } else { v })
        },
{
    match (least_of(horizontal), least_of(vertical)) {
        (Some(h), Some(v)) => Some(h.min(v)),
        _ => None,
    }
}

/// The words of both verdicts on a congested run.
pub open spec fn congestion_words() -> Seq<char> {
    "Global routing finished with congestion. Check the congestion regions in the DRC Viewer."@
}

/// The verdict on a congested run: a warning where congestion is allowed or the detailed engine runs,
/// an error otherwise. Returns false on the error.
pub fn congestion_verdict(congested: bool, allow_congestion: bool, use_cugr: bool, log: &mut Vec<String>) -> (ok: bool)
    ensures
        ok == (!congested || allow_congestion || use_cugr),
        texts(final(log)@) == (if !congested {
            texts(old(log)@)
        } else if ok {
            texts(old(log)@).push("[WARNING GRT-0115] "@ + congestion_words())
        } else {
            texts(old(log)@).push("[ERROR GRT-0116] "@ + congestion_words())
        }),
{
    if !congested {
        return true;
    }
    if allow_congestion || use_cugr {
        let mut s = String::from_str("[WARNING GRT-0115] ");
        s.append("Global routing finished with congestion. Check the congestion regions in the DRC Viewer.");
        push_text(log, s);
        true
    } else {
        let mut s = String::from_str("[ERROR GRT-0116] ");
        s.append("Global routing finished with congestion. Check the congestion regions in the DRC Viewer.");
        push_text(log, s);
        false
    }
}

/// A net is as long as its wires, each with one tile more; a wire of no length counts for
/// nothing.
pub proof fn the_wirelength_of_a_net_is_that_of_its_wires(lengths: Seq<i32>, tile: int, n: int)
    requires
        0 <= n,
    ensures
        net_wirelength(lengths, tile, n) == sum_of(
            n,
            |k: int| if lengths[k] > 0 { lengths[k] + tile } else { 0 },
        ),
    decreases n,
{
    let f = |k: int| if lengths[k] > 0 { lengths[k] + tile } else { 0 };
    if n > 0 {
        the_wirelength_of_a_net_is_that_of_its_wires(lengths, tile, n - 1);
        lemma_sum_next(n - 1, f);
    } else {
        lemma_sum_none(f);
    }
}

/// The wirelength in all is the sum of the nets' own.
pub proof fn the_wirelength_is_that_of_all_nets(routes: Seq<Vec<i32>>, tile: int, n: int)
    requires
        0 <= n,
    ensures
        total_wirelength(routes, tile, n) == sum_of(
            n,
            |k: int| net_wirelength(routes[k]@, tile, routes[k]@.len() as int),
        ),
    decreases n,
{
    let f = |k: int| net_wirelength(routes[k]@, tile, routes[k]@.len() as int);
    if n > 0 {
        the_wirelength_is_that_of_all_nets(routes, tile, n - 1);
        lemma_sum_next(n - 1, f);
    } else {
        lemma_sum_none(f);
    }
}

/// The resource of a list of edges is the sum of their capacities.
pub proof fn the_resource_of_a_layer_is_its_capacity(edges: Seq<(u16, u16)>, n: int)
    requires
        0 <= n,
    ensures
        edge_sum(edges, 0, n) == sum_of(
            n,
            |k: int| edges[k].0 as int,
        ),
    decreases n,
{
    let f = |k: int| edges[k].0 as int;
    if n > 0 {
        the_resource_of_a_layer_is_its_capacity(edges, n - 1);
        lemma_sum_next(n - 1, f);
    } else {
        lemma_sum_none(f);
    }
}

/// The demand of a list of edges is the sum of their usages.
pub proof fn the_demand_of_a_layer_is_its_usage(edges: Seq<(u16, u16)>, n: int)
    requires
        0 <= n,
    ensures
        edge_sum(edges, 1, n) == sum_of(
            n,
            |k: int| edges[k].1 as int,
        ),
    decreases n,
{
    let f = |k: int| edges[k].1 as int;
    if n > 0 {
        the_demand_of_a_layer_is_its_usage(edges, n - 1);
        lemma_sum_next(n - 1, f);
    } else {
        lemma_sum_none(f);
    }
}

/// The overflow of a list of edges sums how far the usage of each is above its capacity; an edge
/// with room to spare takes nothing off.
pub proof fn the_overflow_of_a_layer_is_what_exceeds_its_capacity(edges: Seq<(u16, u16)>, n: int)
    requires
        0 <= n,
    ensures
        edge_sum(edges, 2, n) == sum_of(
            n,
            |k: int| if edges[k].1 > edges[k].0 { edges[k].1 - edges[k].0 } else { 0 },
        ),
    decreases n,
{
    let f = |k: int| if edges[k].1 > edges[k].0 { edges[k].1 - edges[k].0 } else { 0 };
    if n > 0 {
        the_overflow_of_a_layer_is_what_exceeds_its_capacity(edges, n - 1);
        lemma_sum_next(n - 1, f);
    } else {
        lemma_sum_none(f);
    }
}

/// The greatest overflow is that of an edge, and no edge has more; it is zero where none is over
/// its capacity.
pub proof fn the_greatest_overflow_is_that_of_an_edge(edges: Seq<(u16, u16)>, n: int)
    requires
        0 <= n,
    ensures
        is_most_of(edge_max(edges, n), 0, n, |k: int| edges[k].1 - edges[k].0),
    decreases n,
{
    let f = |k: int| edges[k].1 - edges[k].0;
    if n > 0 {
        the_greatest_overflow_is_that_of_an_edge(edges, n - 1);
        let m = edge_max(edges, (n - 1));
        assert forall|k: int| 0 <= k < n implies #[trigger] f(k) <= edge_max(edges, n) by {
            if k < n - 1 {
                assert(f(k) <= m);
            }
        }
        if edge_max(edges, n) == m {
            if m != 0 {
                let k = choose|k: int| 0 <= k < n - 1 && #[trigger] f(k) == m;
                assert(f(k) == edge_max(edges, n));
            }
        } else {
            assert(f(n - 1) == edge_max(edges, n));
        }
    }
}

/// A capacity is too small as long as the usage is above it: of the capacities tried in order, as many are
/// too small as come before the first that is not.
pub proof fn the_first_capacity_that_suffices_is_taken(caps: Seq<i32>, usage: int, n: int)
    requires
        0 <= n <= caps.len(),
    ensures
        0 <= too_small(caps, usage, n) <= n,
        forall|i: int| 0 <= i < too_small(caps, usage, n) ==> (#[trigger] caps[i]) < usage,
        too_small(caps, usage, n) < n ==> caps[too_small(caps, usage, n)] >= usage,
    decreases n,
{
    if n > 0 {
        the_first_capacity_that_suffices_is_taken(caps, usage, n - 1);
    }
}

/// The least suggestion is one of those made, and none is less; it is a hundred where none is
/// under that.
pub proof fn the_least_suggestion_is_one_of_them(s: Seq<Option<i32>>, n: int)
    requires
        0 <= n,
    ensures
        is_least_of(least_suggestion(s, n), 100, n, |k: int| s[k]->0 as int),
    decreases n,
{
    let f = |k: int| s[k]->0 as int;
    if n > 0 {
        the_least_suggestion_is_one_of_them(s, n - 1);
        let m = least_suggestion(s, (n - 1));
        assert forall|k: int| 0 <= k < n implies #[trigger] f(k) >= least_suggestion(s, n) by {
            if k < n - 1 {
                assert(f(k) >= m);
            }
        }
        if least_suggestion(s, n) == m {
            if m != 100 {
                let k = choose|k: int| 0 <= k < n - 1 && #[trigger] f(k) == m;
                assert(f(k) == least_suggestion(s, n));
            }
        } else {
            assert(f(n - 1) == least_suggestion(s, n));
        }
    }
}

/// The resource, the demand and the overflow in all are the sums over the layers, across and
/// along.
pub proof fn a_sum_over_the_layers_is_that_of_each(layers: Seq<CongestionLayer>, pick: int, n: int)
    requires
        0 <= n,
        pick < 3,
    ensures
        layers_sum(layers, pick, n) == sum_of(
            n,
            |k: int| edge_sum(layers[k].h_edges@, pick, layers[k].h_edges@.len() as int) + edge_sum(layers[k].v_edges@, pick, layers[k].v_edges@.len() as int),
        ),
    decreases n,
{
    let f = |k: int| edge_sum(layers[k].h_edges@, pick, layers[k].h_edges@.len() as int) + edge_sum(layers[k].v_edges@, pick, layers[k].v_edges@.len() as int);
    if n > 0 {
        a_sum_over_the_layers_is_that_of_each(layers, pick, n - 1);
        lemma_sum_next(n - 1, f);
    } else {
        lemma_sum_none(f);
    }
}

} // verus!
