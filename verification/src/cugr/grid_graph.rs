//! The graph of gcells: on each layer an edge between neighbouring gcells along the layer's direction,
//! and the usable length of every track that crosses it.

use crate::lists::{all_of, is_least_of, lemma_all_first, lemma_all_next, lemma_all_none, lemma_sum_first, lemma_sum_next, lemma_sum_none, sum_of};
use vstd::prelude::*;
use vstd::string::StringExecFns;

use crate::cugr::design::{can_negate, Design};
use crate::cugr::geo::{high_of, low_of, BoxT, Interval, Point};
use crate::cugr::layers::{MetalLayer, H};
use crate::cugr::tree::{a_walk_stays_in_the_tree, as_pairs, can_walk, is_pair, pairs_along, GrTree, GrTreeNode};
use crate::grids::{fits, tdiv};
use crate::text::{dec, push_int};

verus! {

/// The edge from a gcell to the next along the layer's direction, kept at the lower cell: the length
/// that every track across it can use. Its capacity is the sum of these over the edge's length.
#[derive(Debug)]
pub struct GraphEdge {
    pub usable: Vec<i32>,
}

/// A read out of range.
#[derive(Debug, Clone, Copy, PartialEq, Eq, Structural)]
pub enum GridError {
    /// A shape lies wholly outside the die.
    ShapeOutsideDie { dimension: usize, low: i32, high: i32 },
}

/// The graph of gcells.
#[derive(Debug)]
pub struct GridGraph {
    /// The gridlines across x and across y.
    pub gridlines: Vec<Vec<i32>>,
    /// The middle of every gcell, across x and across y.
    pub grid_centers: Vec<Vec<i32>>,
    pub layer_names: Vec<String>,
    pub layer_directions: Vec<usize>,
    pub dbu_per_micron: i32,
    pub m2_pitch: i32,
    pub num_layers: usize,
    pub x_size: usize,
    pub y_size: usize,
    /// The lowest layer that is routed, from 0.
    pub min_routing_layer: usize,
    /// By layer, x and y.
    pub graph_edges: Vec<Vec<Vec<GraphEdge>>>,
    /// On each layer the number of tracks of every row (horizontal) or column (vertical) of gcells.
    pub grid_tracks: Vec<Vec<i32>>,
}

// ---- gridlines ----

/// Whether lines stand in increasing order and their number fits the machine.
pub open spec fn lines_ok(lines: Seq<i32>) -> bool {
    &&& 2 <= lines.len() <= i32::MAX
    &&& forall|i: int, j: int| 0 <= i < j < lines.len() ==> lines[i] < lines[j]
    &&& forall|i: int| 0 <= i < lines.len() - 1 ==> fits(#[trigger] lines[i] + lines[i + 1])
    &&& forall|i: int| 0 <= i < lines.len() - 2 ==> fits(middle(lines, i + 1) - #[trigger] middle(lines, i))
}

/// The middle of the `i`-th gcell, rounded toward zero.
pub open spec fn middle(lines: Seq<i32>, i: int) -> int {
    tdiv(lines[i] + lines[i + 1], 2)
}

/// The place of the first line from the `k`-th on that is at or above a value, their number if none is.
pub open spec fn first_from(lines: Seq<i32>, v: int, k: int) -> int
    decreases lines.len() - k,
{
    if k >= lines.len() {
        lines.len() as int
    } else if lines[k] >= v {
        k
    } else {
        first_from(lines, v, k + 1)
    }
}

proof fn lemma_first(lines: Seq<i32>, v: int, k: int, r: int)
    requires
        0 <= k <= r <= lines.len(),
        forall|j: int| k <= j < r ==> #[trigger] lines[j] < v,
        r < lines.len() ==> lines[r] >= v,
    ensures
        first_from(lines, v, k) == r,
    decreases r - k,
{
    if k < r {
        assert(lines[k] < v);
        lemma_first(lines, v, k + 1, r);
    }
}

proof fn lemma_first_range(lines: Seq<i32>, v: int, k: int)
    requires
        0 <= k <= lines.len(),
    ensures
        k <= first_from(lines, v, k) <= lines.len(),
        forall|j: int| k <= j < first_from(lines, v, k) ==> #[trigger] lines[j] < v,
        first_from(lines, v, k) < lines.len() ==> lines[first_from(lines, v, k)] >= v,
    decreases lines.len() - k,
{
    if k < lines.len() && lines[k] < v {
        lemma_first_range(lines, v, k + 1);
    }
}

/// The first and the last gridline within an interval. The last is stepped back where the line found
/// lies above, and is the last line of all where none is found.
pub open spec fn lines_within(lines: Seq<i32>, loc: Interval) -> (int, int) {
    let h = first_from(lines, loc.high as int, 0);
    (
        first_from(lines, loc.low as int, 0),
        if h >= lines.len() { lines.len() - 1 } else if lines[h] > loc.high { h - 1 } else { h },
    )
}

/// The first and the last gcell that an interval overlaps; none where the interval lies outside.
pub open spec fn rows_within(lines: Seq<i32>, loc: Interval) -> Option<(int, int)> {
    let (low, high) = lines_within(lines, loc);
    if low >= lines.len() || high < 0 {
        None
    } else {
        Some(
            (
                if lines[low] == loc.low { low } else if low - 1 > 0 { low - 1 } else { 0 },
                if lines[high] == loc.high { high - 1 } else if high < lines.len() - 2 { high } else { lines.len() - 2 },
            ),
        )
    }
}

/// Of an interval that meets the die in more than a point, the gcells found are those that share more
/// than a point with it.
pub proof fn the_rows_found_are_those_overlapped(lines: Seq<i32>, loc: Interval, r: int)
    requires
        lines_ok(lines),
        loc.low < loc.high,
        loc.low < lines.last(),
        loc.high > lines[0],
        0 <= r < lines.len() - 1,
    ensures
        rows_within(lines, loc) is Some,
        ({
            let (lo, hi) = rows_within(lines, loc)->0;
            lo <= r <= hi <==> lines[r] < loc.high && loc.low < lines[r + 1]
        }),
{
    let (a, b) = (first_from(lines, loc.low as int, 0), first_from(lines, loc.high as int, 0));
    lemma_first_range(lines, loc.low as int, 0);
    lemma_first_range(lines, loc.high as int, 0);
    let n = lines.len() as int;
    assert(a < n) by {
        if a == n {
            assert(lines[n - 1] < loc.low);
        }
    }
    assert(b >= 1) by {
        if b == 0 {
            assert(lines[0] >= loc.high);
        }
    }
    let h = lines_within(lines, loc).1;
    assert(h >= 0);
    let (lo, hi) = rows_within(lines, loc)->0;
    if lo <= r <= hi {
        if r < b {
            assert(lines[r] < loc.high);
        } else {
            assert(lines[b] >= loc.high);
        }
        if r + 1 < a {
            assert(lines[r + 1] < loc.low);
        } else {
            if r + 1 > a {
                assert(lines[a] < lines[r + 1]);
            }
        }
    }
    if lines[r] < loc.high && loc.low < lines[r + 1] {
        assert(r < b) by {
            if b <= r {
                assert(lines[b] <= lines[r]);
            }
        }
        assert(a <= r + 1) by {
            if r + 1 < a {
                assert(lines[r + 1] < loc.low);
            }
        }
    }
}

/// The place of the first line at or above a value, by halving.
fn first_at(lines: &Vec<i32>, v: i32) -> (r: usize)
    requires
        lines_ok(lines@),
    ensures
        r == first_from(lines@, v as int, 0),
        r <= lines@.len(),
{
    let mut lo: usize = 0;
    let mut hi: usize = lines.len();
    while lo < hi
        invariant
            lo <= hi <= lines@.len(),
            lines_ok(lines@),
            forall|j: int| 0 <= j < lo ==> #[trigger] lines@[j] < v,
            hi < lines@.len() ==> lines@[hi as int] >= v,
        decreases hi - lo,
    {
        let mid: usize = lo + (hi - lo) / 2;
        if lines[mid] < v {
            assert forall|j: int| 0 <= j < mid + 1 implies #[trigger] lines@[j] < v by {
                if j < mid {
                    assert(lines@[j] < lines@[mid as int]);
                }
            }
            lo = mid + 1;
        } else {
            hi = mid;
        }
    }
    proof {
        lemma_first(lines@, v as int, 0, lo as int);
    }
    lo
}

fn find_lines(lines: &Vec<i32>, loc: Interval) -> (r: Interval)
    requires
        lines_ok(lines@),
    ensures
        r.low == lines_within(lines@, loc).0,
        r.high == lines_within(lines@, loc).1,
{
    let total: usize = lines.len();
    let low: usize = first_at(lines, loc.low);
    let h: usize = first_at(lines, loc.high);
    let high: i32 = if h >= total {
        total as i32 - 1
    } else if lines[h] > loc.high {
        h as i32 - 1
    } else {
        h as i32
    };
    Interval { low: low as i32, high }
}

fn find_rows(lines: &Vec<i32>, loc: Interval) -> (r: Option<Interval>)
    requires
        lines_ok(lines@),
    ensures
        match r {
            Some(i) => rows_within(lines@, loc) == Some((i.low as int, i.high as int)),
            None => rows_within(lines@, loc) is None,
        },
{
    let lr = find_lines(lines, loc);
    let total: usize = lines.len();
    proof {
        lemma_first_range(lines@, loc.low as int, 0);
        lemma_first_range(lines@, loc.high as int, 0);
    }
    if lr.low as usize >= total || lr.high < 0 {
        return None;
    }
    let low: i32 = if lines[lr.low as usize] == loc.low {
        lr.low
    } else if lr.low - 1 > 0 {
        lr.low - 1
    } else {
        0
    };
    let last: i32 = total as i32 - 2;
    let high: i32 = if lines[lr.high as usize] == loc.high {
        lr.high - 1
    } else if lr.high < last {
        lr.high
    } else {
        last
    };
    Some(Interval { low, high })
}

fn find_middles(lines: &Vec<i32>) -> (r: Vec<i32>)
    requires
        lines_ok(lines@),
    ensures
        are_middles(lines@, r@),
{
    let mut r: Vec<i32> = Vec::new();
    let mut k: usize = 0;
    while k < lines.len() - 1
        invariant
            lines_ok(lines@),
            k <= lines@.len() - 1,
            r@.len() == k,
            forall|i: int| 0 <= i < k ==> #[trigger] r@[i] == middle(lines@, i),
        decreases lines@.len() - k,
    {
        assert(fits(lines@[k as int] + lines@[k + 1]));
        let sum: i32 = lines[k] + lines[k + 1];
        r.push(sum / 2);
        k += 1;
    }
    r
}

/// Whether values are the middles of the gcells between lines.
pub open spec fn are_middles(lines: Seq<i32>, middles: Seq<i32>) -> bool {
    &&& middles.len() == lines.len() - 1
    &&& forall|i: int| 0 <= i < middles.len() ==> #[trigger] middles[i] == middle(lines, i)
}

// ---- tracks ----

/// The interval of the `r`-th gcell between lines.
pub open spec fn row_span(lines: Seq<i32>, r: int) -> Interval {
    Interval { low: lines[r], high: lines[r + 1] }
}

/// The number of tracks of a row: those on or between its two gridlines, but one exactly on the upper
/// goes to the next row, if there is one.
pub open spec fn row_tracks(layer: MetalLayer, lines: Seq<i32>, r: int) -> int {
    let (lo, hi) = layer.tracks_within(row_span(lines, r));
    if lo > hi {
        0
    } else {
        hi - lo + 1 - (if r != lines.len() - 2 && layer.first_track_loc + hi * layer.pitch == lines[r + 1] { 1int } else { 0int })
    }
}

/// The number of tracks of the rows before the `r`-th.
pub open spec fn tracks_before(layer: MetalLayer, lines: Seq<i32>, r: int) -> int
    decreases r,
{
    if r <= 0 { 0 } else { tracks_before(layer, lines, r - 1) + row_tracks(layer, lines, r - 1) }
}

/// Whether the search for the tracks inside an interval fits the machine.
pub open spec fn search_fits(layer: MetalLayer, loc: Interval) -> bool {
    let (lo, hi) = layer.tracks_within(loc);
    fits(lo + 1) && fits(hi - 1) && fits(hi)
}

/// Whether counting the tracks of a row fits the machine.
pub open spec fn row_fits(layer: MetalLayer, lines: Seq<i32>, r: int) -> bool {
    let (lo, hi) = layer.tracks_within(row_span(lines, r));
    &&& search_fits(layer, row_span(lines, r))
    &&& lo <= hi ==> fits(hi - lo + 1) && fits(hi * layer.pitch) && fits(layer.first_track_loc + hi * layer.pitch)
}

/// Whether a layer can be laid over lines across its tracks.
pub open spec fn layer_ok(layer: MetalLayer, lines: Seq<i32>) -> bool {
    &&& layer.direction <= 1
    &&& layer.pitch > 0
    &&& forall|r: int| 0 <= r < lines.len() - 1 ==> #[trigger] row_fits(layer, lines, r)
}

fn count_row_tracks(layer: &MetalLayer, lines: &Vec<i32>, r: usize) -> (n: i32)
    requires
        layer_ok(*layer, lines@),
        r + 1 < lines@.len(),
    ensures
        n == row_tracks(*layer, lines@, r as int),
        n >= 0,
{
    assert(row_fits(*layer, lines@, r as int));
    let total: usize = lines.len();
    let loc = Interval { low: lines[r], high: lines[r + 1] };
    let found = layer.range_search_tracks(loc, true);
    if !found.is_valid() {
        return 0;
    }
    let n: i32 = found.high - found.low + 1;
    if r != total - 2 && layer.track_location(found.high) == loc.high {
        return n - 1;
    }
    n
}

/// Whether values are the numbers of the tracks of every row.
pub open spec fn are_tracks(layer: MetalLayer, lines: Seq<i32>, counts: Seq<i32>) -> bool {
    &&& counts.len() == lines.len() - 1
    &&& forall|r: int| 0 <= r < counts.len() ==> #[trigger] counts[r] == row_tracks(layer, lines, r)
    &&& forall|r: int| 0 <= r < counts.len() ==> #[trigger] counts[r] >= 0
}

fn count_tracks(layer: &MetalLayer, lines: &Vec<i32>) -> (counts: Vec<i32>)
    requires
        layer_ok(*layer, lines@),
        lines_ok(lines@),
    ensures
        are_tracks(*layer, lines@, counts@),
{
    let mut counts: Vec<i32> = Vec::new();
    let mut r: usize = 0;
    while r < lines.len() - 1
        invariant
            layer_ok(*layer, lines@),
            lines@.len() >= 2,
            r <= lines@.len() - 1,
            counts@.len() == r,
            forall|k: int| 0 <= k < r ==> #[trigger] counts@[k] == row_tracks(*layer, lines@, k),
            forall|k: int| 0 <= k < r ==> #[trigger] counts@[k] >= 0,
        decreases lines@.len() - r,
    {
        counts.push(count_row_tracks(layer, lines, r));
        r += 1;
    }
    counts
}

// ---- obstacles ----

/// What an obstacle takes from a layer: its extent along the tracks, the tracks and the rows that it
/// covers once enlarged across them, and the edges whose tracks it may cut.
#[derive(Debug, Clone, Copy, PartialEq)]
pub struct Cut {
    pub span: Interval,
    pub tracks: Interval,
    pub rows: Interval,
    pub edges: Interval,
}

/// The shortest of the first `n` edges between the middles of gcells, the greatest number if none is.
pub open spec fn shortest_edge(lines: Seq<i32>, n: int) -> int
    decreases n,
{
    if n <= 0 {
        i32::MAX as int
    } else {
        let s = shortest_edge(lines, n - 1);
        let e = middle(lines, n) - middle(lines, n - 1);
        if e < s { e } else { s }
    }
}

/// The narrower side of an obstacle.
pub open spec fn narrow_side(obs: BoxT) -> int {
    if obs.x.length() < obs.y.length() { obs.x.length() } else { obs.y.length() }
}

/// The length that an obstacle runs along a wire: no more than the shortest edge.
pub open spec fn run_length(layer: MetalLayer, along: Seq<i32>, obs: BoxT) -> int {
    let s = shortest_edge(along, along.len() - 2);
    let l = obs.side(layer.direction as int).length();
    if s < l { s } else { l }
}

/// The spacing that the layer's table asks of an obstacle.
pub open spec fn table_spacing(layer: MetalLayer, along: Seq<i32>, obs: BoxT) -> int {
    layer.parallel_spacing@[layer.row_for(narrow_side(obs) as i32)]@[layer.column_for(run_length(layer, along, obs) as i32)] as int
}

/// How far an obstacle is enlarged across the tracks: the table's spacing and half a wire, less one.
pub open spec fn margin_of(layer: MetalLayer, along: Seq<i32>, obs: BoxT) -> int {
    table_spacing(layer, along, obs) + tdiv(layer.width as int, 2) - 1
}

/// The obstacle's extent across the tracks once enlarged.
pub open spec fn enlarged(layer: MetalLayer, along: Seq<i32>, obs: BoxT) -> Interval {
    let side = obs.side(1 - layer.direction);
    let m = margin_of(layer, along, obs);
    Interval { low: (side.low - m) as i32, high: (side.high + m) as i32 }
}

/// Whether enlarging an obstacle fits the machine.
pub open spec fn obstacle_fits(layer: MetalLayer, along: Seq<i32>, obs: BoxT) -> bool {
    let side = obs.side(1 - layer.direction);
    let m = margin_of(layer, along, obs);
    &&& fits(obs.x.length())
    &&& fits(obs.y.length())
    &&& layer.can_read(narrow_side(obs) as i32, run_length(layer, along, obs) as i32)
    &&& fits(table_spacing(layer, along, obs) + tdiv(layer.width as int, 2))
    &&& fits(m)
    &&& fits(side.low - m)
    &&& fits(side.high + m)
    &&& search_fits(layer, enlarged(layer, along, obs))
}

/// What an obstacle takes from a layer.
pub open spec fn cut_of(layer: MetalLayer, along: Seq<i32>, across: Seq<i32>, obs: BoxT) -> Cut {
    let wide = enlarged(layer, along, obs);
    let (t0, t1) = layer.tracks_within(wide);
    let (r0, r1) = rows_within(across, wide)->0;
    let (g0, g1) = lines_within(along, obs.side(layer.direction as int));
    Cut {
        span: obs.side(layer.direction as int),
        tracks: Interval { low: t0 as i32, high: t1 as i32 },
        rows: Interval { low: r0 as i32, high: r1 as i32 },
        edges: Interval {
            low: (if g0 - 2 > 0 { g0 - 2 } else { 0 }) as i32,
            high: (if g1 < along.len() - 3 { g1 } else { along.len() - 3 }) as i32,
        },
    }
}

/// What each of a layer's obstacles takes.
pub open spec fn cuts_of(layer: MetalLayer, along: Seq<i32>, across: Seq<i32>, obs: Seq<BoxT>) -> Seq<Cut> {
    obs.map_values(|o: BoxT| cut_of(layer, along, across, o))
}

/// Whether an obstacle lies outside the die once enlarged.
pub open spec fn is_outside(layer: MetalLayer, along: Seq<i32>, across: Seq<i32>, obs: BoxT) -> bool {
    rows_within(across, enlarged(layer, along, obs)) is None
}

/// Those of the first `n` cuts that cover a row.
pub open spec fn in_row(cuts: Seq<Cut>, row: int, n: int) -> Seq<Cut>
    decreases n,
{
    if n <= 0 {
        Seq::empty()
    } else {
        let s = in_row(cuts, row, n - 1);
        if cuts[n - 1].rows.has(row) { s.push(cuts[n - 1]) } else { s }
    }
}

/// Those of the first `n` cuts that may cut an edge.
pub open spec fn at_edge(cuts: Seq<Cut>, edge: int, n: int) -> Seq<Cut>
    decreases n,
{
    if n <= 0 {
        Seq::empty()
    } else {
        let s = at_edge(cuts, edge, n - 1);
        if cuts[n - 1].edges.has(edge) { s.push(cuts[n - 1]) } else { s }
    }
}

/// What is left of a usable span: nothing where the obstacle lies across the gridline, else what is on
/// the gridline's side of it.
pub open spec fn trimmed(u: Interval, span: Interval, gridline: i32) -> Interval {
    if span.low <= gridline && span.high >= gridline {
        Interval { low: gridline, high: gridline }
    } else if span.high < gridline {
        Interval { low: high_of(u.low, span.high), high: u.high }
    } else if span.low > gridline {
        Interval { low: u.low, high: low_of(u.high, span.low) }
    } else {
        u
    }
}

/// The span of a track that is usable after the first `n` cuts.
pub open spec fn span_after(cuts: Seq<Cut>, n: int, track: int, gridline: i32, full: Interval) -> Interval
    decreases n,
{
    if n <= 0 {
        full
    } else {
        let u = span_after(cuts, n - 1, track, gridline, full);
        if cuts[n - 1].tracks.has(track) { trimmed(u, cuts[n - 1].span, gridline) } else { u }
    }
}

/// The interval of an edge: from the middle of a gcell to the middle of the next.
pub open spec fn edge_span(along: Seq<i32>, e: int) -> Interval {
    Interval { low: middle(along, e) as i32, high: middle(along, e + 1) as i32 }
}

/// The length of a track across an edge that is usable after a layer's cuts.
pub open spec fn usable_length(cuts: Seq<Cut>, row: int, e: int, track: int, along: Seq<i32>) -> int {
    let filed = in_row(cuts, row, cuts.len() as int);
    let here = at_edge(filed, e, filed.len() as int);
    span_after(here, here.len() as int, track, along[e + 1], edge_span(along, e)).length()
}

/// The usable length of every track of a row across an edge.
pub open spec fn usable_of(layer: MetalLayer, along: Seq<i32>, across: Seq<i32>, cuts: Seq<Cut>, row: int, e: int) -> Seq<i32> {
    Seq::new(
        row_tracks(layer, across, row) as nat,
        |i: int| usable_length(cuts, row, e, tracks_before(layer, across, row) + i, along) as i32,
    )
}

proof fn lemma_middle(lines: Seq<i32>, i: int)
    requires
        lines_ok(lines),
        0 <= i < lines.len() - 1,
    ensures
        lines[i] <= middle(lines, i) <= lines[i + 1],
        fits(middle(lines, i)),
{
    assert(lines[i] < lines[i + 1]);
}

proof fn lemma_span_within(cuts: Seq<Cut>, n: int, track: int, gridline: i32, full: Interval)
    requires
        full.low <= gridline <= full.high,
    ensures
        full.low <= span_after(cuts, n, track, gridline, full).low,
        span_after(cuts, n, track, gridline, full).high <= full.high,
    decreases n,
{
    if n > 0 {
        lemma_span_within(cuts, n - 1, track, gridline, full);
    }
}

/// An obstacle only takes: a track is never usable for more than the length of the edge.
pub proof fn no_track_is_longer_than_its_edge(along: Seq<i32>, cuts: Seq<Cut>, row: int, e: int, track: int)
    requires
        lines_ok(along),
        0 <= e < along.len() - 2,
    ensures
        0 <= usable_length(cuts, row, e, track, along) <= middle(along, e + 1) - middle(along, e),
{
    lemma_middle(along, e);
    lemma_middle(along, e + 1);
    assert(fits(middle(along, e + 1) - middle(along, e)));
    let filed = in_row(cuts, row, cuts.len() as int);
    let here = at_edge(filed, e, filed.len() as int);
    lemma_span_within(here, here.len() as int, track, along[e + 1], edge_span(along, e));
}

fn find_shortest(centers: &Vec<i32>, along: &Vec<i32>) -> (s: i32)
    requires
        lines_ok(along@),
        are_middles(along@, centers@),
    ensures
        s == shortest_edge(along@, along@.len() - 2),
{
    let mut s: i32 = i32::MAX;
    let mut k: usize = 0;
    while k < along.len() - 2
        invariant
            lines_ok(along@),
            are_middles(along@, centers@),
            k <= along@.len() - 2,
            s == shortest_edge(along@, k as int),
        decreases along@.len() - k,
    {
        assert(fits(middle(along@, k + 1) - middle(along@, k as int)));
        assert(centers@[k as int] == middle(along@, k as int) && centers@[k + 1] == middle(along@, k + 1));
        let e: i32 = centers[k + 1] - centers[k];
        if e < s {
            s = e;
        }
        k += 1;
    }
    s
}

/// What an obstacle takes from a layer, or the interval that lies outside the die.
fn find_cut(layer: &MetalLayer, along: &Vec<i32>, across: &Vec<i32>, shortest: i32, obs: &BoxT) -> (r: Result<Cut, Interval>)
    requires
        lines_ok(along@),
        lines_ok(across@),
        layer_ok(*layer, across@),
        obstacle_fits(*layer, along@, *obs),
        shortest == shortest_edge(along@, along@.len() - 2),
    ensures
        match r {
            Ok(c) => !is_outside(*layer, along@, across@, *obs) && c == cut_of(*layer, along@, across@, *obs),
            Err(wide) => is_outside(*layer, along@, across@, *obs) && wide == enlarged(*layer, along@, *obs),
        },
{
    let d: usize = layer.direction;
    let (xr, yr) = (obs.x.range(), obs.y.range());
    let width: i32 = if xr < yr { xr } else { yr };
    let span = obs.get(d);
    let length: i32 = span.range();
    let run: i32 = if shortest < length { shortest } else { length };
    let spacing: i32 = layer.parallel_spacing_for(width, run) + layer.width / 2 - 1;
    let side = obs.get(1 - d);
    let wide = Interval { low: side.low - spacing, high: side.high + spacing };
    let tracks = layer.range_search_tracks(wide, true);
    let rows = match find_rows(across, wide) {
        Some(r) => r,
        None => {
            return Err(wide);
        },
    };
    let lines = find_lines(along, span);
    proof {
        lemma_first_range(along@, span.low as int, 0);
        lemma_first_range(along@, span.high as int, 0);
        lemma_first_range(across@, wide.low as int, 0);
        lemma_first_range(across@, wide.high as int, 0);
    }
    let total: usize = along.len();
    let last: i32 = total as i32 - 3;
    let edges = Interval {
        low: if lines.low - 2 > 0 { lines.low - 2 } else { 0 },
        high: if lines.high < last { lines.high } else { last },
    };
    Ok(Cut { span, tracks, rows, edges })
}

/// The usable length of every track of a row across an edge.
fn find_usable(cuts: &Vec<Cut>, base: i64, count: i32, e: usize, gridline: i32, full: Interval) -> (r: Vec<i32>)
    requires
        count >= 0,
        0 <= base <= 0x3fff_ffff_ffff_ffff,
        full.low <= gridline <= full.high,
        fits(full.high - full.low),
        e <= i32::MAX,
    ensures
        r@.len() == count,
        forall|i: int|
            0 <= i < count ==> ({
                let here = at_edge(cuts@, e as int, cuts@.len() as int);
                #[trigger] r@[i] == span_after(here, here.len() as int, base + i, gridline, full).length()
            }),
{
    let mut here: Vec<Cut> = Vec::new();
    let mut k: usize = 0;
    while k < cuts.len()
        invariant
            k <= cuts@.len(),
            e <= i32::MAX,
            here@ == at_edge(cuts@, e as int, k as int),
        decreases cuts@.len() - k,
    {
        if cuts[k].edges.contains(e as i32) {
            here.push(cuts[k]);
        }
        k += 1;
    }
    let mut r: Vec<i32> = Vec::new();
    let mut i: i32 = 0;
    while i < count
        invariant
            0 <= i <= count,
            0 <= base <= 0x3fff_ffff_ffff_ffff,
            full.low <= gridline <= full.high,
            fits(full.high - full.low),
            r@.len() == i,
            forall|j: int| 0 <= j < i ==> #[trigger] r@[j] == span_after(here@, here@.len() as int, base + j, gridline, full).length(),
        decreases count - i,
    {
        let track: i64 = base + i as i64;
        let mut u = full;
        let mut k: usize = 0;
        while k < here.len()
            invariant
                k <= here@.len(),
                u == span_after(here@, k as int, track as int, gridline, full),
            decreases here@.len() - k,
        {
            let c = here[k];
            if c.tracks.low as i64 <= track && track <= c.tracks.high as i64 {
                if c.span.low <= gridline && c.span.high >= gridline {
                    u = Interval { low: gridline, high: gridline };
                } else if c.span.high < gridline {
                    u.low = if u.low > c.span.high { u.low } else { c.span.high };
                } else if c.span.low > gridline {
                    u.high = if u.high < c.span.low { u.high } else { c.span.low };
                }
            }
            k += 1;
        }
        proof {
            lemma_span_within(here@, here@.len() as int, track as int, gridline, full);
        }
        r.push(u.range());
        i += 1;
    }
    r
}

/// The usable lengths of the edge at a cell of a layer: none where the layer is not routed, and past
/// the last gcell.
pub open spec fn edge_tracks(layer: MetalLayer, along: Seq<i32>, across: Seq<i32>, cuts: Seq<Cut>, routed: bool, x: int, y: int) -> Seq<i32> {
    let (row, e) = if layer.direction == H { (y, x) } else { (x, y) };
    if !routed || e >= along.len() - 2 { Seq::empty() } else { usable_of(layer, along, across, cuts, row, e) }
}

fn sum_tracks(layer: &MetalLayer, across: &Vec<i32>, counts: &Vec<i32>) -> (bases: Vec<i64>)
    requires
        lines_ok(across@),
        are_tracks(*layer, across@, counts@),
    ensures
        bases@.len() == counts@.len(),
        forall|r: int| 0 <= r < bases@.len() ==> #[trigger] bases@[r] == tracks_before(*layer, across@, r),
        forall|r: int| 0 <= r < bases@.len() ==> 0 <= #[trigger] bases@[r] <= 0x3fff_ffff_ffff_ffff,
{
    let mut bases: Vec<i64> = Vec::new();
    let mut sum: i64 = 0;
    let mut r: usize = 0;
    while r < counts.len()
        invariant
            lines_ok(across@),
            are_tracks(*layer, across@, counts@),
            r <= counts@.len() <= i32::MAX,
            sum == tracks_before(*layer, across@, r as int),
            0 <= sum <= r * 0x7fff_ffff,
            bases@.len() == r,
            forall|k: int| 0 <= k < r ==> #[trigger] bases@[k] == tracks_before(*layer, across@, k),
            forall|k: int| 0 <= k < r ==> 0 <= #[trigger] bases@[k] <= 0x3fff_ffff_ffff_ffff,
        decreases counts@.len() - r,
    {
        bases.push(sum);
        assert(counts@[r as int] >= 0);
        sum = sum + counts[r] as i64;
        r += 1;
    }
    bases
}

fn file_cuts(cuts: &Vec<Cut>, rows: usize) -> (filed: Vec<Vec<Cut>>)
    requires
        rows <= i32::MAX,
    ensures
        filed@.len() == rows,
        forall|r: int| 0 <= r < rows ==> (#[trigger] filed@[r])@ == in_row(cuts@, r, cuts@.len() as int),
{
    let mut filed: Vec<Vec<Cut>> = Vec::new();
    let mut r: usize = 0;
    while r < rows
        invariant
            r <= rows <= i32::MAX,
            filed@.len() == r,
            forall|k: int| 0 <= k < r ==> (#[trigger] filed@[k])@ == in_row(cuts@, k, cuts@.len() as int),
        decreases rows - r,
    {
        let mut here: Vec<Cut> = Vec::new();
        let mut k: usize = 0;
        while k < cuts.len()
            invariant
                k <= cuts@.len(),
                r < rows <= i32::MAX,
                here@ == in_row(cuts@, r as int, k as int),
            decreases cuts@.len() - k,
        {
            if cuts[k].rows.contains(r as i32) {
                here.push(cuts[k]);
            }
            k += 1;
        }
        filed.push(here);
        r += 1;
    }
    filed
}

/// The edges of a layer, by x and y.
fn lay_edges(layer: &MetalLayer, along: &Vec<i32>, across: &Vec<i32>, centers: &Vec<i32>, counts: &Vec<i32>, cuts: &Vec<Cut>, routed: bool, x_size: usize, y_size: usize) -> (edges: Vec<Vec<GraphEdge>>)
    requires
        lines_ok(along@),
        lines_ok(across@),
        layer_ok(*layer, across@),
        are_middles(along@, centers@),
        are_tracks(*layer, across@, counts@),
        x_size == (if layer.direction == H { along@.len() - 1 } else { across@.len() - 1 }),
        y_size == (if layer.direction == H { across@.len() - 1 } else { along@.len() - 1 }),
    ensures
        edges@.len() == x_size,
        forall|x: int| 0 <= x < x_size ==> (#[trigger] edges@[x])@.len() == y_size,
        forall|x: int, y: int|
            0 <= x < x_size && 0 <= y < y_size ==> (#[trigger] edges@[x]@[y]).usable@ == edge_tracks(*layer, along@, across@, cuts@, routed, x, y),
{
    let bases = sum_tracks(layer, across, counts);
    let filed = file_cuts(cuts, counts.len());
    let total: usize = along.len();
    let mut edges: Vec<Vec<GraphEdge>> = Vec::new();
    let mut x: usize = 0;
    while x < x_size
        invariant
            lines_ok(along@),
            lines_ok(across@),
            layer_ok(*layer, across@),
            are_middles(along@, centers@),
            are_tracks(*layer, across@, counts@),
            x_size == (if layer.direction == H { along@.len() - 1 } else { across@.len() - 1 }),
            y_size == (if layer.direction == H { across@.len() - 1 } else { along@.len() - 1 }),
            total == along@.len(),
            bases@.len() == counts@.len(),
            forall|r: int| 0 <= r < bases@.len() ==> #[trigger] bases@[r] == tracks_before(*layer, across@, r),
            forall|r: int| 0 <= r < bases@.len() ==> 0 <= #[trigger] bases@[r] <= 0x3fff_ffff_ffff_ffff,
            filed@.len() == counts@.len(),
            forall|r: int| 0 <= r < filed@.len() ==> (#[trigger] filed@[r])@ == in_row(cuts@, r, cuts@.len() as int),
            x <= x_size,
            edges@.len() == x,
            forall|i: int| 0 <= i < x ==> (#[trigger] edges@[i])@.len() == y_size,
            forall|i: int, j: int|
                0 <= i < x && 0 <= j < y_size ==> (#[trigger] edges@[i]@[j]).usable@ == edge_tracks(*layer, along@, across@, cuts@, routed, i, j),
        decreases x_size - x,
    {
        let mut column: Vec<GraphEdge> = Vec::new();
        let mut y: usize = 0;
        while y < y_size
            invariant
                lines_ok(along@),
                lines_ok(across@),
                layer_ok(*layer, across@),
                are_middles(along@, centers@),
                are_tracks(*layer, across@, counts@),
                x < x_size,
                x_size == (if layer.direction == H { along@.len() - 1 } else { across@.len() - 1 }),
                y_size == (if layer.direction == H { across@.len() - 1 } else { along@.len() - 1 }),
                total == along@.len(),
                bases@.len() == counts@.len(),
                forall|r: int| 0 <= r < bases@.len() ==> #[trigger] bases@[r] == tracks_before(*layer, across@, r),
                forall|r: int| 0 <= r < bases@.len() ==> 0 <= #[trigger] bases@[r] <= 0x3fff_ffff_ffff_ffff,
                filed@.len() == counts@.len(),
                forall|r: int| 0 <= r < filed@.len() ==> (#[trigger] filed@[r])@ == in_row(cuts@, r, cuts@.len() as int),
                y <= y_size,
                column@.len() == y,
                forall|j: int| 0 <= j < y ==> (#[trigger] column@[j]).usable@ == edge_tracks(*layer, along@, across@, cuts@, routed, x as int, j),
            decreases y_size - y,
        {
            let (row, e) = if layer.direction == H { (y, x) } else { (x, y) };
            if !routed || e >= total - 2 {
                let usable: Vec<i32> = Vec::new();
                assert(usable@ =~= edge_tracks(*layer, along@, across@, cuts@, routed, x as int, y as int));
                column.push(GraphEdge { usable });
            } else {
                proof {
                    lemma_middle(along@, e as int);
                    lemma_middle(along@, e + 1);
                    assert(fits(middle(along@, e + 1) - middle(along@, e as int)));
                    assert(centers@[e as int] == middle(along@, e as int) && centers@[e + 1] == middle(along@, e + 1));
                }
                let full = Interval { low: centers[e], high: centers[e + 1] };
                assert(full == edge_span(along@, e as int));
                assert(counts@[row as int] >= 0);
                assert(0 <= bases@[row as int] <= 0x3fff_ffff_ffff_ffff);
                let usable = find_usable(&filed[row], bases[row], counts[row], e, along[e + 1], full);
                proof {
                    let want = usable_of(*layer, along@, across@, cuts@, row as int, e as int);
                    assert(counts@[row as int] == row_tracks(*layer, across@, row as int));
                    assert(usable@.len() == want.len());
                    assert forall|i: int| 0 <= i < usable@.len() implies usable@[i] == want[i] by {
                        let f = in_row(cuts@, row as int, cuts@.len() as int);
                        assert(filed@[row as int]@ == f);
                        let here = at_edge(f, e as int, f.len() as int);
                        assert(usable@[i] == span_after(here, here.len() as int, bases@[row as int] + i, along@[e + 1], full).length());
                    }
                    assert(usable@ =~= want);
                }
                column.push(GraphEdge { usable });
            }
            y += 1;
        }
        let ghost e0 = edges@;
        edges.push(column);
        x += 1;
        proof {
            assert forall|i: int, j: int| 0 <= i < x && 0 <= j < y_size implies (#[trigger] edges@[i]@[j]).usable@ == edge_tracks(*layer, along@, across@, cuts@, routed, i, j) by {
                if i < x - 1 {
                    assert(edges@[i] == e0[i]);
                    assert(e0[i]@[j].usable@ == edge_tracks(*layer, along@, across@, cuts@, routed, i, j));
                }
            }
        }
    }
    edges
}

// ---- the graph ----

/// The lines along and across the tracks of a layer.
pub open spec fn along_of(gridlines: Seq<Vec<i32>>, layer: MetalLayer) -> Seq<i32> {
    gridlines[layer.direction as int]@
}

pub open spec fn across_of(gridlines: Seq<Vec<i32>>, layer: MetalLayer) -> Seq<i32> {
    gridlines[1 - layer.direction]@
}

/// The obstacles of a layer.
pub open spec fn obstacles_of(design: Design, l: int) -> Seq<BoxT> {
    design.obstacles_on(true, l, design.obstacles@.len() as int)
}

/// Whether a graph over a design fits the machine.
pub open spec fn graph_fits(design: Design, min_routing_layer: int) -> bool {
    let g = design.gridlines@;
    &&& g.len() == 2
    &&& lines_ok(g[0]@)
    &&& lines_ok(g[1]@)
    &&& design.layers@.len() >= 2
    &&& forall|k: int| 0 <= k < design.obstacles@.len() ==> (#[trigger] design.obstacles@[k]).layer < design.layers@.len()
    &&& forall|l: int| 0 <= l < design.layers@.len() ==> layer_ok(#[trigger] design.layers@[l], across_of(g, design.layers@[l]))
    &&& forall|l: int, k: int|
        min_routing_layer <= l < design.layers@.len() && 0 <= k < obstacles_of(design, l).len() ==> obstacle_fits(
            design.layers@[l],
            along_of(g, design.layers@[l]),
            #[trigger] obstacles_of(design, l)[k],
        )
}

/// Whether an obstacle of a routed layer lies outside the die.
pub open spec fn lies_outside(design: Design, l: int, k: int) -> bool {
    let layer = design.layers@[l];
    is_outside(layer, along_of(design.gridlines@, layer), across_of(design.gridlines@, layer), obstacles_of(design, l)[k])
}

/// The error of an obstacle that lies outside the die.
pub open spec fn outside_error(design: Design, l: int, k: int) -> GridError {
    let layer = design.layers@[l];
    let wide = enlarged(layer, along_of(design.gridlines@, layer), obstacles_of(design, l)[k]);
    GridError::ShapeOutsideDie { dimension: (1 - layer.direction) as usize, low: wide.low, high: wide.high }
}

/// Whether the `k`-th obstacle of layer `l` is the first that lies outside the die.
pub open spec fn is_first_outside(design: Design, min_routing_layer: int, l: int, k: int) -> bool {
    &&& min_routing_layer <= l < design.layers@.len()
    &&& 0 <= k < obstacles_of(design, l).len()
    &&& lies_outside(design, l, k)
    &&& forall|j: int| 0 <= j < k ==> !#[trigger] lies_outside(design, l, j)
    &&& forall|m: int, j: int| min_routing_layer <= m < l && 0 <= j < obstacles_of(design, m).len() ==> !#[trigger] lies_outside(design, m, j)
}

/// Whether no obstacle of a routed layer lies outside the die.
pub open spec fn all_inside(design: Design, min_routing_layer: int, n: int) -> bool {
    forall|l: int, k: int| min_routing_layer <= l < n && 0 <= k < obstacles_of(design, l).len() ==> !#[trigger] lies_outside(design, l, k)
}

/// The usable lengths of the edge at a cell of a layer of a design.
pub open spec fn design_edge(design: Design, min_routing_layer: int, l: int, x: int, y: int) -> Seq<i32> {
    let layer = design.layers@[l];
    let along = along_of(design.gridlines@, layer);
    let across = across_of(design.gridlines@, layer);
    edge_tracks(layer, along, across, cuts_of(layer, along, across, obstacles_of(design, l)), l >= min_routing_layer, x, y)
}

/// Whether a layer of a graph is the one that a design gives.
pub open spec fn is_layer_laid(design: Design, min_routing_layer: int, l: int, edges: Seq<Vec<GraphEdge>>, x_size: int, y_size: int) -> bool {
    &&& edges.len() == x_size
    &&& forall|x: int| 0 <= x < x_size ==> (#[trigger] edges[x])@.len() == y_size
    &&& forall|x: int, y: int| 0 <= x < x_size && 0 <= y < y_size ==> (#[trigger] edges[x]@[y]).usable@ == design_edge(design, min_routing_layer, l, x, y)
}

/// Whether a graph is the one over a design.
pub open spec fn is_graph_of(design: Design, min_routing_layer: int, g: GridGraph) -> bool {
    &&& g.wf()
    &&& g.gridlines@[0]@ == design.gridlines@[0]@
    &&& g.gridlines@[1]@ == design.gridlines@[1]@
    &&& g.num_layers == design.layers@.len()
    &&& g.dbu_per_micron == design.dbu_per_micron
    &&& g.m2_pitch == design.layers@[1].pitch
    &&& g.min_routing_layer == min_routing_layer
    &&& forall|l: int| 0 <= l < g.num_layers ==> (#[trigger] g.layer_names@[l])@ == design.layers@[l].name@
    &&& forall|l: int| 0 <= l < g.num_layers ==> #[trigger] g.layer_directions@[l] == design.layers@[l].direction
    &&& forall|l: int| 0 <= l < g.num_layers ==> are_tracks(design.layers@[l], across_of(design.gridlines@, design.layers@[l]), (#[trigger] g.grid_tracks@[l])@)
    &&& forall|l: int| 0 <= l < g.num_layers ==> is_layer_laid(design, min_routing_layer, l, (#[trigger] g.graph_edges@[l])@, g.x_size as int, g.y_size as int)
}

impl GridGraph {
    /// Whether the parts of a graph fit together.
    pub open spec fn wf(&self) -> bool {
        &&& self.gridlines@.len() == 2
        &&& self.grid_centers@.len() == 2
        &&& forall|d: int| 0 <= d < 2 ==> lines_ok((#[trigger] self.gridlines@[d])@)
        &&& forall|d: int| 0 <= d < 2 ==> are_middles(self.gridlines@[d]@, (#[trigger] self.grid_centers@[d])@)
        &&& self.x_size == self.gridlines@[0]@.len() - 1
        &&& self.y_size == self.gridlines@[1]@.len() - 1
        &&& self.layer_names@.len() == self.num_layers
        &&& self.layer_directions@.len() == self.num_layers
        &&& forall|l: int| 0 <= l < self.num_layers ==> #[trigger] self.layer_directions@[l] <= 1
        &&& self.grid_tracks@.len() == self.num_layers
        &&& self.graph_edges@.len() == self.num_layers
        &&& forall|l: int| 0 <= l < self.num_layers ==> (#[trigger] self.graph_edges@[l])@.len() == self.x_size
        &&& forall|l: int, x: int| 0 <= l < self.num_layers && 0 <= x < self.x_size ==> (#[trigger] self.graph_edges@[l]@[x])@.len() == self.y_size
    }

    /// Lays the graph over a design.
    ///
    /// A row has the tracks on or between its gridlines, one exactly on the upper given to the next
    /// row. Every obstacle is enlarged across the tracks and trims those that it covers. Refused where
    /// an obstacle lies wholly outside the die.
    pub fn new(design: &Design, min_routing_layer: usize) -> (r: Result<GridGraph, GridError>)
        requires
            graph_fits(*design, min_routing_layer as int),
        ensures
            match r {
                Ok(g) => all_inside(*design, min_routing_layer as int, design.layers@.len() as int) && is_graph_of(*design, min_routing_layer as int, g),
                Err(e) => exists|l: int, k: int| #[trigger] is_first_outside(*design, min_routing_layer as int, l, k) && e == outside_error(*design, l, k),
            },
    {
        let mut gridlines: Vec<Vec<i32>> = Vec::new();
        gridlines.push(crate::vecs::copy_vec(&design.gridlines[0]));
        gridlines.push(crate::vecs::copy_vec(&design.gridlines[1]));
        let mut grid_centers: Vec<Vec<i32>> = Vec::new();
        grid_centers.push(find_middles(&gridlines[0]));
        grid_centers.push(find_middles(&gridlines[1]));
        let x_size: usize = gridlines[0].len() - 1;
        let y_size: usize = gridlines[1].len() - 1;
        let obstacles = design.all_obstacles(true);
        let num_layers: usize = design.layers.len();
        let mut layer_names: Vec<String> = Vec::new();
        let mut layer_directions: Vec<usize> = Vec::new();
        let mut grid_tracks: Vec<Vec<i32>> = Vec::new();
        let mut graph_edges: Vec<Vec<Vec<GraphEdge>>> = Vec::new();
        let mut l: usize = 0;
        while l < num_layers
            invariant
                graph_fits(*design, min_routing_layer as int),
                num_layers == design.layers@.len(),
                gridlines@.len() == 2,
                gridlines@[0]@ == design.gridlines@[0]@,
                gridlines@[1]@ == design.gridlines@[1]@,
                grid_centers@.len() == 2,
                are_middles(gridlines@[0]@, grid_centers@[0]@),
                are_middles(gridlines@[1]@, grid_centers@[1]@),
                x_size == gridlines@[0]@.len() - 1,
                y_size == gridlines@[1]@.len() - 1,
                obstacles@.len() == num_layers,
                forall|m: int| 0 <= m < num_layers ==> (#[trigger] obstacles@[m])@ == obstacles_of(*design, m),
                l <= num_layers,
                layer_names@.len() == l,
                layer_directions@.len() == l,
                grid_tracks@.len() == l,
                graph_edges@.len() == l,
                forall|m: int| 0 <= m < l ==> (#[trigger] layer_names@[m])@ == design.layers@[m].name@,
                forall|m: int| 0 <= m < l ==> #[trigger] layer_directions@[m] == design.layers@[m].direction,
                forall|m: int| 0 <= m < l ==> are_tracks(design.layers@[m], across_of(design.gridlines@, design.layers@[m]), (#[trigger] grid_tracks@[m])@),
                forall|m: int| 0 <= m < l ==> is_layer_laid(*design, min_routing_layer as int, m, (#[trigger] graph_edges@[m])@, x_size as int, y_size as int),
                all_inside(*design, min_routing_layer as int, l as int),
            decreases num_layers - l,
        {
            let layer = &design.layers[l];
            let d: usize = layer.direction;
            assert(layer_ok(design.layers@[l as int], across_of(design.gridlines@, design.layers@[l as int])));
            let along = &gridlines[d];
            let across = &gridlines[1 - d];
            let centers = &grid_centers[d];
            let ghost obs = obstacles_of(*design, l as int);
            assert(along@ == along_of(design.gridlines@, *layer) && across@ == across_of(design.gridlines@, *layer));
            let counts = count_tracks(layer, across);
            let routed = l >= min_routing_layer;
            let mut cuts: Vec<Cut> = Vec::new();
            if routed {
                let shortest: i32 = find_shortest(centers, along);
                let mut k: usize = 0;
                while k < obstacles[l].len()
                    invariant
                        graph_fits(*design, min_routing_layer as int),
                        l < num_layers == design.layers@.len() == obstacles@.len(),
                        min_routing_layer <= l,
                        *layer == design.layers@[l as int],
                        d == layer.direction,
                        along@ == along_of(design.gridlines@, *layer),
                        across@ == across_of(design.gridlines@, *layer),
                        lines_ok(along@),
                        lines_ok(across@),
                        layer_ok(*layer, across@),
                        shortest == shortest_edge(along@, along@.len() - 2),
                        obs == obstacles_of(*design, l as int),
                        obstacles@[l as int]@ == obs,
                        k <= obs.len(),
                        cuts@.len() == k,
                        forall|j: int| 0 <= j < k ==> #[trigger] cuts@[j] == cut_of(*layer, along@, across@, obs[j]),
                        forall|j: int| 0 <= j < k ==> !#[trigger] lies_outside(*design, l as int, j),
                        all_inside(*design, min_routing_layer as int, l as int),
                    decreases obs.len() - k,
                {
                    assert(obstacle_fits(*layer, along@, obstacles_of(*design, l as int)[k as int]));
                    match find_cut(layer, along, across, shortest, &obstacles[l][k]) {
                        Ok(c) => {
                            assert(!lies_outside(*design, l as int, k as int));
                            cuts.push(c);
                        },
                        Err(wide) => {
                            assert(lies_outside(*design, l as int, k as int));
                            assert(is_first_outside(*design, min_routing_layer as int, l as int, k as int));
                            return Err(GridError::ShapeOutsideDie { dimension: 1 - d, low: wide.low, high: wide.high });
                        },
                    }
                    k += 1;
                }
                assert(cuts@ =~= cuts_of(*layer, along@, across@, obs));
            }
            let edges = lay_edges(layer, along, across, centers, &counts, &cuts, routed, x_size, y_size);
            proof {
                assert forall|x: int, y: int| 0 <= x < x_size && 0 <= y < y_size implies (#[trigger] edges@[x]@[y]).usable@ == design_edge(
                    *design,
                    min_routing_layer as int,
                    l as int,
                    x,
                    y,
                ) by {}
                assert(is_layer_laid(*design, min_routing_layer as int, l as int, edges@, x_size as int, y_size as int));
            }
            layer_names.push(String::from_str(layer.name.as_str()));
            layer_directions.push(d);
            grid_tracks.push(counts);
            graph_edges.push(edges);
            l += 1;
        }
        let g = GridGraph {
            gridlines,
            grid_centers,
            layer_names,
            layer_directions,
            dbu_per_micron: design.dbu_per_micron,
            m2_pitch: design.layers[1].pitch,
            num_layers,
            x_size,
            y_size,
            min_routing_layer,
            graph_edges,
            grid_tracks,
        };
        proof {
            assert forall|l: int| 0 <= l < num_layers implies (#[trigger] g.graph_edges@[l])@.len() == x_size by {
                assert(is_layer_laid(*design, min_routing_layer as int, l, g.graph_edges@[l]@, x_size as int, y_size as int));
            }
            assert forall|l: int, x: int| 0 <= l < num_layers && 0 <= x < x_size implies (#[trigger] g.graph_edges@[l]@[x])@.len() == y_size by {
                assert(is_layer_laid(*design, min_routing_layer as int, l, g.graph_edges@[l]@, x_size as int, y_size as int));
            }
            assert forall|l: int| 0 <= l < num_layers implies #[trigger] g.layer_directions@[l] <= 1 by {
                assert(layer_ok(design.layers@[l], across_of(design.gridlines@, design.layers@[l])));
            }
            assert(g.wf());
        }
        Ok(g)
    }
}

// ---- deposits ----

/// A deposit on an edge: `length / over` tracks of demand on the edge at the lower cell, before the
/// net's own factor for the layer. What is taken up again has a negated length.
#[derive(Debug, Clone, Copy, PartialEq, Eq, Structural)]
pub struct Commit {
    pub layer: usize,
    pub p: Point,
    pub length: i128,
    pub over: i32,
}

/// A tree that cannot be committed.
#[derive(Debug, Clone, Copy, PartialEq, Eq, Structural)]
pub enum CommitError {
    /// A wire below the lowest routed layer.
    WireBelowMinLayer { layer: i32 },
    /// A wire whose ends are not aligned with its layer's direction.
    WrongWayWire { layer: i32 },
    /// A via above the top layer.
    ViaAboveTop { layer: i32 },
}

/// What is said of it.
pub open spec fn commit_error_text(e: CommitError) -> Seq<char> {
    match e {
        CommitError::WireBelowMinLayer { layer } => "WireBelowMinLayer { layer: "@ + dec(layer as int) + " }"@,
        CommitError::WrongWayWire { layer } => "WrongWayWire { layer: "@ + dec(layer as int) + " }"@,
        CommitError::ViaAboveTop { layer } => "ViaAboveTop { layer: "@ + dec(layer as int) + " }"@,
    }
}

impl CommitError {
    /// What is said of it.
    pub fn message(&self) -> (s: String)
        ensures
            s@ == commit_error_text(*self),
    {
        match self {
            CommitError::WireBelowMinLayer { layer } => {
                let mut s = String::from_str("WireBelowMinLayer { layer: ");
                push_int(&mut s, *layer as i64);
                s.append(" }");
                s
            },
            CommitError::WrongWayWire { layer } => {
                let mut s = String::from_str("WrongWayWire { layer: ");
                push_int(&mut s, *layer as i64);
                s.append(" }");
                s
            },
            CommitError::ViaAboveTop { layer } => {
                let mut s = String::from_str("ViaAboveTop { layer: ");
                push_int(&mut s, *layer as i64);
                s.append(" }");
                s
            },
        }
    }
}

/// A point with one coordinate replaced.
pub open spec fn moved(p: Point, dimension: int, v: int) -> Point {
    if dimension == 0 { Point { x: v as i32, y: p.y } } else { Point { x: p.x, y: v as i32 } }
}

/// A coordinate of a point.
pub open spec fn coord(p: Point, dimension: int) -> int {
    if dimension == 0 { p.x as int } else { p.y as int }
}

/// The lower and the higher of two coordinates.
pub open spec fn lower(a: int, b: int) -> int {
    if a < b { a } else { b }
}

pub open spec fn higher(a: int, b: int) -> int {
    if a > b { a } else { b }
}

/// The edges of a straight run, one track each, in ascending order.
pub open spec fn straight(layer: int, p: Point, d: int, lo: int, hi: int) -> Seq<Commit> {
    Seq::new(
        (if lo < hi { hi - lo } else { 0 }) as nat,
        |i: int| Commit { layer: layer as usize, p: moved(p, d, lo + i), length: 1, over: 1 },
    )
}

/// Deposits with each length negated where they are taken up.
pub open spec fn signed(log: Seq<Commit>, rip_up: bool) -> Seq<Commit> {
    if rip_up { log.map_values(|c: Commit| Commit { length: (-c.length) as i128, ..c }) } else { log }
}

/// Deposits and, where they stop short, why.
pub struct Outcome {
    pub log: Seq<Commit>,
    pub error: Option<CommitError>,
}

impl GridGraph {
    /// The number of gcells in a dimension.
    pub open spec fn extent(&self, d: int) -> int {
        if d == 0 { self.x_size as int } else { self.y_size as int }
    }

    /// Whether a cell lies in the grid.
    pub open spec fn has_cell(&self, p: Point) -> bool {
        0 <= p.x < self.x_size && 0 <= p.y < self.y_size
    }

    /// The length of an edge: from the middle of a gcell to the middle of the next.
    pub open spec fn span_of(&self, d: int, e: int) -> int {
        middle(self.gridlines@[d]@, e + 1) - middle(self.gridlines@[d]@, e)
    }

    /// The length of the edge before a cell, 0 where there is none.
    pub open spec fn length_before(&self, d: int, at: int) -> int {
        if at > 0 { self.span_of(d, at - 1) } else { 0 }
    }

    /// The length of the edge at a cell, 0 where there is none.
    pub open spec fn length_after(&self, d: int, at: int) -> int {
        if at < self.extent(d) - 1 { self.span_of(d, at) } else { 0 }
    }

    /// Whether the lengths beside every cell add up within the machine.
    pub open spec fn flanks_fit(&self) -> bool {
        forall|d: int, at: int| 0 <= d < 2 && 0 <= at < self.extent(d) ==> fits(#[trigger] self.length_before(d, at) + self.length_after(d, at))
    }

    /// The edges beside a cell along its layer's direction, each where it has a length, and the sum of
    /// both lengths.
    pub open spec fn flanks(&self, layer: int, loc: Point) -> Seq<(Point, i32)> {
        let d = self.layer_directions@[layer] as int;
        let at = coord(loc, d);
        let (before, after) = (self.length_before(d, at), self.length_after(d, at));
        let sum = (before + after) as i32;
        if sum == 0 {
            Seq::empty()
        } else {
            (if before > 0 { seq![(moved(loc, d, at - 1), sum)] } else { Seq::empty() }) + (if after > 0 { seq![(loc, sum)] } else { Seq::empty() })
        }
    }

    /// A length spread over the edges beside a cell.
    pub open spec fn spread(&self, layer: int, loc: Point, length: i128) -> Seq<Commit> {
        self.flanks(layer, loc).map_values(|f: (Point, i32)| Commit { layer: layer as usize, p: f.0, length, over: f.1 })
    }

    /// The deposits of a via from a layer to the one above.
    pub open spec fn via_deposits(&self, layer: int, loc: Point, below: i128, above: i128) -> Seq<Commit> {
        self.spread(layer, loc, below) + (if layer + 1 < self.num_layers { self.spread(layer + 1, loc, above) } else { Seq::empty() })
    }

    /// The deposits of a wire against its layer's direction: the layer's length beside every cell that
    /// it crosses, from `c` to `hi`.
    pub open spec fn wrong_way(&self, layer: int, p: Point, length: i128, c: int, hi: int) -> Seq<Commit>
        decreases hi - c,
    {
        if c >= hi {
            Seq::empty()
        } else {
            self.spread(layer, moved(p, 1 - self.layer_directions@[layer], c), length) + self.wrong_way(layer, p, length, c + 1, hi)
        }
    }

    /// The deposits of the vias from layer `l` to layer `hi`, until one lies above the top.
    pub open spec fn via_stack(&self, design: Design, p: Point, l: int, hi: int) -> Outcome
        decreases hi - l,
    {
        if l >= hi {
            Outcome { log: Seq::empty(), error: None }
        } else if l + 1 >= self.num_layers {
            Outcome { log: Seq::empty(), error: Some(CommitError::ViaAboveTop { layer: l as i32 }) }
        } else {
            let rest = self.via_stack(design, p, l + 1, hi);
            Outcome {
                log: self.via_deposits(l, p, design.via_demand_length_lower@[l], design.via_demand_length_upper@[l]) + rest.log,
                error: rest.error,
            }
        }
    }

    /// The deposits of a link of a tree.
    pub open spec fn link_deposits(&self, design: Design, a: GrTreeNode, b: GrTreeNode, adopted: bool) -> Outcome {
        if a.layer != b.layer {
            self.via_stack(design, a.p, lower(a.layer as int, b.layer as int), higher(a.layer as int, b.layer as int))
        } else {
            let d = self.layer_directions@[a.layer as int] as int;
            let along = coord(a.p, d) != coord(b.p, d);
            if adopted && a.layer < self.min_routing_layer {
                Outcome { log: Seq::empty(), error: None }
            } else if coord(a.p, 1 - d) != coord(b.p, 1 - d) {
                if !adopted || along {
                    Outcome { log: Seq::empty(), error: Some(CommitError::WrongWayWire { layer: a.layer }) }
                } else {
                    let (lo, hi) = (lower(coord(a.p, 1 - d), coord(b.p, 1 - d)), higher(coord(a.p, 1 - d), coord(b.p, 1 - d)));
                    Outcome { log: self.wrong_way(a.layer as int, a.p, design.wrong_way_demand_length@[a.layer as int], lo, hi), error: None }
                }
            } else if along && a.layer < self.min_routing_layer {
                Outcome { log: Seq::empty(), error: Some(CommitError::WireBelowMinLayer { layer: a.layer }) }
            } else {
                Outcome {
                    log: straight(a.layer as int, a.p, d, lower(coord(a.p, d), coord(b.p, d)), higher(coord(a.p, d), coord(b.p, d))),
                    error: None,
                }
            }
        }
    }

    /// The deposits of the first `n` links of a tree, until one cannot be committed.
    pub open spec fn tree_deposits(&self, design: Design, nodes: Seq<GrTreeNode>, links: Seq<(int, int)>, adopted: bool, n: int) -> Outcome
        decreases n,
    {
        if n <= 0 {
            Outcome { log: Seq::empty(), error: None }
        } else {
            let before = self.tree_deposits(design, nodes, links, adopted, n - 1);
            if before.error is Some {
                before
            } else {
                let this = self.link_deposits(design, nodes[links[n - 1].0], nodes[links[n - 1].1], adopted);
                Outcome { log: before.log + this.log, error: this.error }
            }
        }
    }

    /// Whether a link lies in the grid: both ends at cells, and no wire on a layer that is not there.
    pub open spec fn holds_link(&self, a: GrTreeNode, b: GrTreeNode) -> bool {
        &&& self.has_cell(a.p)
        &&& self.has_cell(b.p)
        &&& a.layer >= 0
        &&& b.layer >= 0
        &&& a.layer == b.layer ==> a.layer < self.num_layers
    }

    /// Whether a tree can be walked and every link of it lies in the grid.
    pub open spec fn holds_tree(&self, tree: GrTree) -> bool {
        &&& can_walk(tree.nodes@)
        &&& forall|k: int| 0 <= k < tree.links().len() ==> self.holds_link(tree.nodes@[(#[trigger] tree.links()[k]).0], tree.nodes@[tree.links()[k].1])
    }

    /// Whether a link can be committed: every edge that it deposits on, or reads the length of, is in
    /// the grid. A wire may end one past the last cell.
    pub open spec fn can_commit_link(&self, a: GrTreeNode, b: GrTreeNode, adopted: bool) -> bool {
        let d = self.layer_directions@[a.layer as int] as int;
        let (low, high) = (lower(coord(a.p, d), coord(b.p, d)), higher(coord(a.p, d), coord(b.p, d)));
        let (near, far) = (lower(coord(a.p, 1 - d), coord(b.p, 1 - d)), higher(coord(a.p, 1 - d), coord(b.p, 1 - d)));
        &&& a.layer >= 0
        &&& b.layer >= 0
        &&& if a.layer != b.layer {
            lower(a.layer as int, b.layer as int) + 1 < self.num_layers ==> self.has_cell(a.p)
        } else if adopted && a.layer < self.min_routing_layer {
            true
        } else {
            &&& a.layer < self.num_layers
            &&& adopted && near != far && low == high ==> 0 <= low < self.extent(d) && 0 <= near && far <= self.extent(1 - d)
            &&& near == far && low != high && a.layer >= self.min_routing_layer ==> 0 <= near < self.extent(1 - d) && 0 <= low && high <= self.extent(d)
        }
    }

    /// Whether a tree can be walked and every link of it can be committed.
    pub open spec fn can_commit(&self, tree: GrTree, adopted: bool) -> bool {
        &&& can_walk(tree.nodes@)
        &&& forall|k: int|
            0 <= k < tree.links().len() ==> self.can_commit_link(tree.nodes@[(#[trigger] tree.links()[k]).0], tree.nodes@[tree.links()[k].1], adopted)
    }

    /// What committing a tree gives.
    pub open spec fn deposits(&self, design: Design, tree: GrTree, adopted: bool) -> Outcome {
        self.tree_deposits(design, tree.nodes@, tree.links(), adopted, tree.links().len() as int)
    }

    /// The number of gcells in a dimension: 0 is x, any other y.
    pub fn size(&self, dimension: usize) -> (r: usize)
        ensures
            r == self.extent(dimension as int),
    {
        if dimension == 0 { self.x_size } else { self.y_size }
    }

    /// The length of an edge: from the middle of a gcell to the middle of the next.
    pub fn edge_length(&self, direction: usize, edge_index: usize) -> (r: i32)
        requires
            self.wf(),
            direction <= 1,
            edge_index < self.extent(direction as int) - 1,
        ensures
            r == self.span_of(direction as int, edge_index as int),
    {
        proof {
            let lines = self.gridlines@[direction as int]@;
            assert(are_middles(lines, self.grid_centers@[direction as int]@));
            assert(lines_ok(lines));
            assert(fits(middle(lines, edge_index + 1) - middle(lines, edge_index as int)));
        }
        self.grid_centers[direction][edge_index + 1] - self.grid_centers[direction][edge_index]
    }

    pub fn edge(&self, layer: usize, x: usize, y: usize) -> (r: &GraphEdge)
        requires
            self.wf(),
            layer < self.num_layers,
            x < self.x_size,
            y < self.y_size,
        ensures
            *r == self.graph_edges@[layer as int]@[x as int]@[y as int],
    {
        assert(self.graph_edges@[layer as int]@.len() == self.x_size);
        assert(self.graph_edges@[layer as int]@[x as int]@.len() == self.y_size);
        &self.graph_edges[layer][x][y]
    }

    /// The first and the last gridline within an interval.
    pub fn range_search_gridlines(&self, dimension: usize, loc: Interval) -> (r: Interval)
        requires
            self.wf(),
            dimension <= 1,
        ensures
            r.low == lines_within(self.gridlines@[dimension as int]@, loc).0,
            r.high == lines_within(self.gridlines@[dimension as int]@, loc).1,
    {
        assert(lines_ok(self.gridlines@[dimension as int]@));
        find_lines(&self.gridlines[dimension], loc)
    }

    /// The gcells that an interval overlaps: one that starts on a gridline starts in that gcell, one
    /// that ends on a gridline ends in the gcell before. Refused where the interval lies outside.
    pub fn range_search_rows(&self, dimension: usize, loc: Interval) -> (r: Result<Interval, GridError>)
        requires
            self.wf(),
            dimension <= 1,
        ensures
            match r {
                Ok(i) => rows_within(self.gridlines@[dimension as int]@, loc) == Some((i.low as int, i.high as int)),
                Err(e) => {
                    &&& rows_within(self.gridlines@[dimension as int]@, loc) is None
                    &&& e == (GridError::ShapeOutsideDie { dimension, low: loc.low, high: loc.high })
                },
            },
    {
        assert(lines_ok(self.gridlines@[dimension as int]@));
        match find_rows(&self.gridlines[dimension], loc) {
            Some(i) => Ok(i),
            None => Err(GridError::ShapeOutsideDie { dimension, low: loc.low, high: loc.high }),
        }
    }

    /// The gcells that a box overlaps. The x side is refused first.
    pub fn range_search_cells(&self, b: &BoxT) -> (r: Result<BoxT, GridError>)
        requires
            self.wf(),
        ensures
            match r {
                Ok(c) => {
                    &&& rows_within(self.gridlines@[0]@, b.x) == Some((c.x.low as int, c.x.high as int))
                    &&& rows_within(self.gridlines@[1]@, b.y) == Some((c.y.low as int, c.y.high as int))
                },
                Err(e) => if rows_within(self.gridlines@[0]@, b.x) is None {
                    e == (GridError::ShapeOutsideDie { dimension: 0, low: b.x.low, high: b.x.high })
                } else {
                    &&& rows_within(self.gridlines@[1]@, b.y) is None
                    &&& e == (GridError::ShapeOutsideDie { dimension: 1, low: b.y.low, high: b.y.high })
                },
            },
    {
        let x = match self.range_search_rows(0, b.x) {
            Ok(i) => i,
            Err(e) => {
                return Err(e);
            },
        };
        match self.range_search_rows(1, b.y) {
            Ok(y) => Ok(BoxT { x, y }),
            Err(e) => Err(e),
        }
    }

    /// The edges beside a cell along its layer's direction, each where it has a length, and the sum of
    /// both lengths.
    pub fn flank_edges(&self, layer: usize, loc: Point) -> (out: Vec<(Point, i32)>)
        requires
            self.wf(),
            self.flanks_fit(),
            layer < self.num_layers,
            self.has_cell(loc),
        ensures
            out@ == self.flanks(layer as int, loc),
    {
        let d: usize = self.layer_directions[layer];
        assert(self.layer_directions@[layer as int] <= 1);
        let at: i32 = loc.get(d);
        let size: usize = self.size(d);
        assert(size <= i32::MAX) by {
            assert(lines_ok(self.gridlines@[d as int]@));
        }
        let before: i32 = if at > 0 { self.edge_length(d, (at - 1) as usize) } else { 0 };
        let after: i32 = if (at as usize) < size - 1 { self.edge_length(d, at as usize) } else { 0 };
        assert(fits(self.length_before(d as int, at as int) + self.length_after(d as int, at as int)));
        let sum: i32 = before + after;
        let mut out: Vec<(Point, i32)> = Vec::new();
        if sum == 0 {
            return out;
        }
        if before > 0 {
            let mut below = loc;
            below.set(d, at - 1);
            out.push((below, sum));
        }
        if after > 0 {
            out.push((loc, sum));
        }
        assert(out@ =~= self.flanks(layer as int, loc));
        out
    }

    fn spread_on(&self, layer: usize, loc: Point, length: i128, log: &mut Vec<Commit>)
        requires
            self.wf(),
            self.flanks_fit(),
            layer < self.num_layers,
            self.has_cell(loc),
        ensures
            final(log)@ == old(log)@ + self.spread(layer as int, loc, length),
    {
        let flanks = self.flank_edges(layer, loc);
        let ghost log0 = log@;
        let ghost all = self.spread(layer as int, loc, length);
        let mut k: usize = 0;
        assert(log@ =~= log0 + all.take(0));
        while k < flanks.len()
            invariant
                flanks@ == self.flanks(layer as int, loc),
                all == self.spread(layer as int, loc, length),
                k <= flanks@.len(),
                log@ == log0 + all.take(k as int),
            decreases flanks@.len() - k,
        {
            let (p, over) = flanks[k];
            log.push(Commit { layer, p, length, over });
            k += 1;
            assert(log@ =~= log0 + all.take(k as int));
        }
        assert(all.take(k as int) =~= all);
    }

    /// The deposits of a via from a layer to the one above: on each of the two layers the length that
    /// the via takes there, spread over the edges beside the cell.
    pub fn via_flank_edges(&self, layer_index: usize, loc: Point, via_demand_lower: i128, via_demand_upper: i128) -> (out: Vec<Commit>)
        requires
            self.wf(),
            self.flanks_fit(),
            layer_index < self.num_layers,
            self.has_cell(loc),
        ensures
            out@ == self.via_deposits(layer_index as int, loc, via_demand_lower, via_demand_upper),
    {
        let mut out: Vec<Commit> = Vec::new();
        self.spread_on(layer_index, loc, via_demand_lower, &mut out);
        if layer_index < self.num_layers - 1 {
            self.spread_on(layer_index + 1, loc, via_demand_upper, &mut out);
        }
        assert(out@ =~= self.via_deposits(layer_index as int, loc, via_demand_lower, via_demand_upper));
        out
    }

    fn deposit_vias(&self, design: &Design, p: Point, from: i32, to: i32, log: &mut Vec<Commit>) -> (r: Option<CommitError>)
        requires
            self.wf(),
            self.flanks_fit(),
            from + 1 < self.num_layers ==> self.has_cell(p),
            0 <= from <= to,
            design.via_demand_length_lower@.len() >= self.num_layers,
            design.via_demand_length_upper@.len() >= self.num_layers,
        ensures
            final(log)@ == old(log)@ + self.via_stack(*design, p, from as int, to as int).log,
            r == self.via_stack(*design, p, from as int, to as int).error,
        decreases to - from,
    {
        let ghost log0 = log@;
        if from >= to {
            assert(log@ =~= log0 + self.via_stack(*design, p, from as int, to as int).log);
            return None;
        }
        let l: usize = from as usize;
        if l + 1 >= self.num_layers {
            assert(log@ =~= log0 + self.via_stack(*design, p, from as int, to as int).log);
            return Some(CommitError::ViaAboveTop { layer: from });
        }
        let mut here = self.via_flank_edges(l, p, design.via_demand_length_lower[l], design.via_demand_length_upper[l]);
        log.append(&mut here);
        let r = self.deposit_vias(design, p, from + 1, to, log);
        assert(log@ =~= log0 + self.via_stack(*design, p, from as int, to as int).log);
        r
    }

    fn deposit_wrong_way(&self, layer: usize, p: Point, length: i128, from: i32, to: i32, log: &mut Vec<Commit>)
        requires
            self.wf(),
            self.flanks_fit(),
            layer < self.num_layers,
            0 <= coord(p, self.layer_directions@[layer as int] as int) < self.extent(self.layer_directions@[layer as int] as int),
            0 <= from <= to <= self.extent(1 - self.layer_directions@[layer as int]),
        ensures
            final(log)@ == old(log)@ + self.wrong_way(layer as int, p, length, from as int, to as int),
    {
        let ghost log0 = log@;
        let d: usize = self.layer_directions[layer];
        assert(self.layer_directions@[layer as int] <= 1);
        let ghost all = self.wrong_way(layer as int, p, length, from as int, to as int);
        let mut c: i32 = from;
        assert(log@ + self.wrong_way(layer as int, p, length, c as int, to as int) =~= log0 + all);
        while c < to
            invariant
                self.wf(),
                self.flanks_fit(),
                layer < self.num_layers,
                0 <= coord(p, d as int) < self.extent(d as int),
                d == self.layer_directions@[layer as int],
                d <= 1,
                0 <= from <= c <= to <= self.extent(1 - d),
                log@ + self.wrong_way(layer as int, p, length, c as int, to as int) == log0 + all,
            decreases to - c,
        {
            let mut cell = p;
            cell.set(1 - d, c);
            let ghost before = log@;
            self.spread_on(layer, cell, length, log);
            proof {
                let here = self.spread(layer as int, moved(p, 1 - d, c as int), length);
                let rest = self.wrong_way(layer as int, p, length, c + 1, to as int);
                assert(cell == moved(p, 1 - d, c as int));
                assert(before + (here + rest) =~= (before + here) + rest);
            }
            c += 1;
        }
        assert(log@ =~= log0 + all);
    }

    fn deposit_straight(&self, layer: usize, p: Point, d: usize, from: i32, to: i32, log: &mut Vec<Commit>)
        requires
            d <= 1,
            from <= to,
        ensures
            final(log)@ == old(log)@ + straight(layer as int, p, d as int, from as int, to as int),
    {
        let ghost log0 = log@;
        let ghost all = straight(layer as int, p, d as int, from as int, to as int);
        let mut i: i32 = from;
        assert(log@ =~= log0 + all.take(0));
        while i < to
            invariant
                d <= 1,
                from <= i <= to,
                all == straight(layer as int, p, d as int, from as int, to as int),
                log@ == log0 + all.take(i - from),
            decreases to - i,
        {
            let mut cell = p;
            cell.set(d, i);
            log.push(Commit { layer, p: cell, length: 1, over: 1 });
            assert(all[i - from].p == cell);
            i += 1;
            assert(log@ =~= log0 + all.take(i - from));
        }
        assert(all.take(i - from) =~= all);
    }

    /// The deposits of a tree, in walking order: a track on every edge that a wire crosses, and the
    /// vias of every layer that a link crosses, at the parent's cell.
    ///
    /// Of an adopted tree a wire below the lowest routed layer deposits nothing, and one against its
    /// layer's direction spreads the layer's length beside every cell that it crosses. Any other tree
    /// with either is refused, as is a diagonal in any tree. What came before stays deposited.
    ///
    /// Where the tree is ripped up, the deposits are the same with each length negated.
    pub fn commit_tree(&self, design: &Design, tree: &GrTree, rip_up: bool, adopted: bool, log: &mut Vec<Commit>) -> (r: Result<(), CommitError>)
        requires
            self.wf(),
            self.flanks_fit(),
            self.can_commit(*tree, adopted),
            design.via_demand_length_lower@.len() >= self.num_layers,
            design.via_demand_length_upper@.len() >= self.num_layers,
            design.wrong_way_demand_length@.len() >= self.num_layers,
            rip_up ==> can_negate(*design, self.num_layers as int),
        ensures
            ({
                let all = self.deposits(*design, *tree, adopted);
                &&& final(log)@ == old(log)@ + signed(all.log, rip_up)
                &&& match r {
                    Ok(()) => all.error is None,
                    Err(e) => all.error == Some(e),
                }
            }),
    {
        if !rip_up {
            return self.deposit_tree(design, tree, adopted, log);
        }
        let ghost all = self.deposits(*design, *tree, adopted);
        let ghost log0 = log@;
        let mut own: Vec<Commit> = Vec::new();
        let r = self.deposit_tree(design, tree, adopted, &mut own);
        proof {
            assert(own@ =~= all.log);
            lemma_tree_negates(*self, *design, *tree, adopted, tree.links().len() as int);
            assert(log@ =~= log0 + signed(all.log, true).take(0));
        }
        let mut k: usize = 0;
        while k < own.len()
            invariant
                own@ == all.log,
                all_negate(all.log),
                k <= own@.len(),
                log@ == log0 + signed(all.log, true).take(k as int),
            decreases own@.len() - k,
        {
            let c = own[k];
            assert(all.log[k as int].length > i128::MIN);
            let length: i128 = -c.length;
            log.push(Commit { layer: c.layer, p: c.p, length, over: c.over });
            assert(signed(all.log, true)[k as int] == log@.last());
            k += 1;
            assert(log@ =~= log0 + signed(all.log, true).take(k as int));
        }
        assert(signed(all.log, true).take(k as int) =~= signed(all.log, true));
        r
    }

    #[verifier::rlimit(60)]
    #[verifier::spinoff_prover]
    fn deposit_tree(&self, design: &Design, tree: &GrTree, adopted: bool, log: &mut Vec<Commit>) -> (r: Result<(), CommitError>)
        requires
            self.wf(),
            self.flanks_fit(),
            self.can_commit(*tree, adopted),
            design.via_demand_length_lower@.len() >= self.num_layers,
            design.via_demand_length_upper@.len() >= self.num_layers,
            design.wrong_way_demand_length@.len() >= self.num_layers,
        ensures
            ({
                let all = self.deposits(*design, *tree, adopted);
                &&& final(log)@ == old(log)@ + all.log
                &&& match r {
                    Ok(()) => all.error is None,
                    Err(e) => all.error == Some(e),
                }
            }),
    {
        let links = tree.edges();
        let ghost log0 = log@;
        let ghost spec_links = tree.links();
        let mut k: usize = 0;
        assert(spec_links.len() == links@.len()) by {
            assert(as_pairs(links@).len() == links@.len());
        }
        assert(log@ =~= log0 + self.tree_deposits(*design, tree.nodes@, spec_links, adopted, 0).log);
        while k < links.len()
            invariant
                self.wf(),
                self.flanks_fit(),
                self.can_commit(*tree, adopted),
                design.via_demand_length_lower@.len() >= self.num_layers,
                design.via_demand_length_upper@.len() >= self.num_layers,
                design.wrong_way_demand_length@.len() >= self.num_layers,
                log0 == old(log)@,
                spec_links == tree.links(),
                as_pairs(links@) == spec_links,
                spec_links.len() == links@.len(),
                forall|i: int| 0 <= i < links@.len() ==> (#[trigger] links@[i]).0 < tree.nodes@.len() && links@[i].1 < tree.nodes@.len(),
                k <= links@.len(),
                log@ == log0 + self.tree_deposits(*design, tree.nodes@, spec_links, adopted, k as int).log,
                self.tree_deposits(*design, tree.nodes@, spec_links, adopted, k as int).error is None,
            decreases links@.len() - k,
        {
            let (n, c) = links[k];
            let a = &tree.nodes[n];
            let b = &tree.nodes[c];
            let ghost before = log@;
            let ghost step = self.link_deposits(*design, *a, *b, adopted);
            proof {
                assert(spec_links[k as int] == (n as int, c as int)) by {
                    assert(as_pairs(links@)[k as int] == (n as int, c as int));
                }
                assert(self.can_commit_link(tree.nodes@[spec_links[k as int].0], tree.nodes@[spec_links[k as int].1], adopted));
            }
            let error = self.deposit_link(design, a, b, adopted, log);
            proof {
                let now = self.tree_deposits(*design, tree.nodes@, spec_links, adopted, k + 1);
                assert(log@ =~= log0 + now.log);
                if error is Some {
                    lemma_stops(*self, *design, tree.nodes@, spec_links, adopted, k + 1, spec_links.len() as int);
                }
            }
            match error {
                Some(e) => {
                    return Err(e);
                },
                None => {},
            }
            k += 1;
        }
        Ok(())
    }

    fn deposit_link(&self, design: &Design, a: &GrTreeNode, b: &GrTreeNode, adopted: bool, log: &mut Vec<Commit>) -> (r: Option<CommitError>)
        requires
            self.wf(),
            self.flanks_fit(),
            self.can_commit_link(*a, *b, adopted),
            design.via_demand_length_lower@.len() >= self.num_layers,
            design.via_demand_length_upper@.len() >= self.num_layers,
            design.wrong_way_demand_length@.len() >= self.num_layers,
        ensures
            final(log)@ == old(log)@ + self.link_deposits(*design, *a, *b, adopted).log,
            r == self.link_deposits(*design, *a, *b, adopted).error,
    {
        let ghost log0 = log@;
        if a.layer != b.layer {
            let (lo, hi) = if a.layer < b.layer { (a.layer, b.layer) } else { (b.layer, a.layer) };
            return self.deposit_vias(design, a.p, lo, hi, log);
        }
        let layer: usize = a.layer as usize;
        if adopted && layer < self.min_routing_layer {
            assert(log@ =~= log0 + self.link_deposits(*design, *a, *b, adopted).log);
            return None;
        }
        let d: usize = self.layer_directions[layer];
        assert(self.layer_directions@[layer as int] <= 1);
        let (a0, b0) = (a.p.get(d), b.p.get(d));
        let (a1, b1) = (a.p.get(1 - d), b.p.get(1 - d));
        let out: Option<CommitError> = if a1 != b1 {
            if !adopted || a0 != b0 {
                Some(CommitError::WrongWayWire { layer: a.layer })
            } else {
                let (lo, hi) = if a1 < b1 { (a1, b1) } else { (b1, a1) };
                self.deposit_wrong_way(layer, a.p, design.wrong_way_demand_length[layer], lo, hi, log);
                None
            }
        } else if a0 != b0 && layer < self.min_routing_layer {
            Some(CommitError::WireBelowMinLayer { layer: a.layer })
        } else {
            let (lo, hi) = if a0 < b0 { (a0, b0) } else { (b0, a0) };
            self.deposit_straight(layer, a.p, d, lo, hi, log);
            None
        };
        assert(log@ =~= log0 + self.link_deposits(*design, *a, *b, adopted).log);
        out
    }
}

/// A tree whose nodes are all at cells, with no wire on a layer that is not there, lies in the grid.
pub proof fn a_tree_at_cells_is_held(g: GridGraph, tree: GrTree)
    requires
        can_walk(tree.nodes@),
        forall|n: int| 0 <= n < tree.nodes@.len() ==> g.has_cell((#[trigger] tree.nodes@[n]).p) && tree.nodes@[n].layer >= 0,
        forall|n: int, k: int|
            0 <= n < tree.nodes@.len() && 0 <= k < tree.nodes@[n].children@.len() ==> (tree.nodes@[#[trigger] tree.nodes@[n].children@[k] as int].layer
                == tree.nodes@[n].layer ==> tree.nodes@[n].layer < g.num_layers),
    ensures
        g.holds_tree(tree),
{
    a_walk_stays_in_the_tree(tree);
    assert forall|k: int| 0 <= k < tree.links().len() implies g.holds_link(tree.nodes@[(#[trigger] tree.links()[k]).0], tree.nodes@[tree.links()[k].1]) by {
        lemma_pair(tree.nodes@, tree.walk(), tree.walk().len() as int, k);
        let (i, j) = choose|i: int, j: int| #[trigger] is_pair_of(tree.nodes@, tree.walk(), tree.links()[k], i, j);
        let n = tree.walk()[i];
        assert(tree.nodes@[tree.walk()[i]].children@[j] < tree.nodes@.len());
        assert(tree.nodes@[n].children@[j] == tree.links()[k].1);
    }
}

/// Whether a pair is that of the `i`-th node of a walk and its `j`-th child.
spec fn is_pair_of(nodes: Seq<GrTreeNode>, walk: Seq<int>, e: (int, int), i: int, j: int) -> bool {
    0 <= i < walk.len() && is_pair(nodes, e, walk[i], j)
}

proof fn lemma_pair(nodes: Seq<GrTreeNode>, walk: Seq<int>, m: int, k: int)
    requires
        0 <= m <= walk.len(),
        forall|i: int| 0 <= i < walk.len() ==> 0 <= #[trigger] walk[i] < nodes.len(),
        0 <= k < pairs_along(nodes, walk, m).len(),
    ensures
        exists|i: int, j: int| #[trigger] is_pair_of(nodes, walk, pairs_along(nodes, walk, m)[k], i, j),
    decreases m,
{
    let before = pairs_along(nodes, walk, m - 1);
    if k < before.len() {
        lemma_pair(nodes, walk, m - 1, k);
        let (i, j) = choose|i: int, j: int| #[trigger] is_pair_of(nodes, walk, before[k], i, j);
        assert(is_pair_of(nodes, walk, pairs_along(nodes, walk, m)[k], i, j));
    } else {
        assert(is_pair_of(nodes, walk, pairs_along(nodes, walk, m)[k], m - 1, k - before.len()));
    }
}

proof fn lemma_stops(g: GridGraph, design: Design, nodes: Seq<GrTreeNode>, links: Seq<(int, int)>, adopted: bool, m: int, n: int)
    requires
        0 <= m <= n,
        g.tree_deposits(design, nodes, links, adopted, m).error is Some,
    ensures
        g.tree_deposits(design, nodes, links, adopted, n) == g.tree_deposits(design, nodes, links, adopted, m),
    decreases n - m,
{
    if m < n {
        lemma_stops(g, design, nodes, links, adopted, m, n - 1);
    }
}

/// The lengths that the first `n` deposits lay on the edge at a cell of a layer, over one span.
pub open spec fn laid_on(log: Seq<Commit>, layer: usize, p: Point, over: i32, n: int) -> int
    decreases n,
{
    if n <= 0 {
        0
    } else {
        let c = log[n - 1];
        laid_on(log, layer, p, over, n - 1) + (if c.layer == layer && c.p == p && c.over == over { c.length as int } else { 0 })
    }
}

/// Whether every length of a log can be negated.
spec fn all_negate(log: Seq<Commit>) -> bool {
    forall|i: int| 0 <= i < log.len() ==> (#[trigger] log[i]).length > i128::MIN
}

proof fn lemma_wrong_way_negates(g: GridGraph, layer: int, p: Point, length: i128, c: int, hi: int)
    requires
        length > i128::MIN,
    ensures
        all_negate(g.wrong_way(layer, p, length, c, hi)),
    decreases hi - c,
{
    if c < hi {
        lemma_wrong_way_negates(g, layer, p, length, c + 1, hi);
    }
}

proof fn lemma_vias_negate(g: GridGraph, design: Design, p: Point, l: int, hi: int)
    requires
        can_negate(design, g.num_layers as int),
        0 <= l,
    ensures
        all_negate(g.via_stack(design, p, l, hi).log),
    decreases hi - l,
{
    if l < hi && l + 1 < g.num_layers {
        lemma_vias_negate(g, design, p, l + 1, hi);
        assert(design.via_demand_length_lower@[l] > i128::MIN && design.via_demand_length_upper@[l] > i128::MIN);
        assert(all_negate(g.via_deposits(l, p, design.via_demand_length_lower@[l], design.via_demand_length_upper@[l])));
    }
}

proof fn lemma_tree_negates(g: GridGraph, design: Design, tree: GrTree, adopted: bool, n: int)
    requires
        can_negate(design, g.num_layers as int),
        g.can_commit(tree, adopted),
        0 <= n <= tree.links().len(),
    ensures
        all_negate(g.tree_deposits(design, tree.nodes@, tree.links(), adopted, n).log),
    decreases n,
{
    if n > 0 {
        lemma_tree_negates(g, design, tree, adopted, n - 1);
        let (a, b) = (tree.nodes@[tree.links()[n - 1].0], tree.nodes@[tree.links()[n - 1].1]);
        assert(g.can_commit_link(a, b, adopted));
        let d = g.layer_directions@[a.layer as int] as int;
        if a.layer != b.layer {
            lemma_vias_negate(g, design, a.p, lower(a.layer as int, b.layer as int), higher(a.layer as int, b.layer as int));
        } else if !(adopted && a.layer < g.min_routing_layer) {
            assert(design.wrong_way_demand_length@[a.layer as int] > i128::MIN);
            lemma_wrong_way_negates(
                g, a.layer as int, a.p, design.wrong_way_demand_length@[a.layer as int],
                lower(coord(a.p, 1 - d), coord(b.p, 1 - d)), higher(coord(a.p, 1 - d), coord(b.p, 1 - d)),
            );
        }
        assert(all_negate(g.link_deposits(design, a, b, adopted).log));
    }
}

proof fn lemma_negated_sums(log: Seq<Commit>, layer: usize, p: Point, over: i32, n: int)
    requires
        all_negate(log),
        0 <= n <= log.len(),
    ensures
        laid_on(signed(log, true), layer, p, over, n) == -laid_on(log, layer, p, over, n),
    decreases n,
{
    if n > 0 {
        lemma_negated_sums(log, layer, p, over, n - 1);
        assert(log[n - 1].length > i128::MIN);
    }
}

proof fn lemma_joined_sums(a: Seq<Commit>, b: Seq<Commit>, layer: usize, p: Point, over: i32, n: int)
    requires
        0 <= n <= a.len() + b.len(),
    ensures
        laid_on(a + b, layer, p, over, n) == (if n <= a.len() {
            laid_on(a, layer, p, over, n)
        } else {
            laid_on(a, layer, p, over, a.len() as int) + laid_on(b, layer, p, over, n - a.len())
        }),
    decreases n,
{
    if n > 0 {
        lemma_joined_sums(a, b, layer, p, over, n - 1);
        assert(laid_on(b, layer, p, over, 0) == 0);
        if n > a.len() {
            assert((a + b)[n - 1] == b[n - 1 - a.len()]);
        }
    }
}

impl GridGraph {
    /// Ripping a tree up undoes laying it down. Where the first call ends well so does the second, and where
    /// it is refused the second is, for the same reason. The second gives the first one's records in the same
    /// order, each with its length negated and nothing else changed. So on every edge and over every span the
    /// demand is what it was before both.
    pub proof fn taking_a_tree_up_undoes_laying_it_down(
        &self, design: Design, tree: GrTree, adopted: bool, from: Seq<Commit>, down: Seq<Commit>, up: Seq<Commit>, laid: Result<(), CommitError>, taken: Result<(), CommitError>,
    )
        requires
            self.can_commit(tree, adopted),
            can_negate(design, self.num_layers as int),
            down == from + signed(self.deposits(design, tree, adopted).log, false),
            up == down + signed(self.deposits(design, tree, adopted).log, true),
            match laid {
                Ok(()) => self.deposits(design, tree, adopted).error is None,
                Err(e) => self.deposits(design, tree, adopted).error == Some(e),
            },
            match taken {
                Ok(()) => self.deposits(design, tree, adopted).error is None,
                Err(e) => self.deposits(design, tree, adopted).error == Some(e),
            },
        ensures
            taken is Ok <==> laid is Ok,
            laid matches Err(e) ==> taken == Err::<(), CommitError>(e),
            up.len() - down.len() == down.len() - from.len(),
            up.take(down.len() as int) == down,
            forall|i: int|
                0 <= i < down.len() - from.len() ==> ({
                    let (first, second) = (down[from.len() + i], #[trigger] up[down.len() + i]);
                    &&& second.length == -first.length
                    &&& second == (Commit { length: second.length, ..first })
                }),
            forall|layer: usize, p: Point, over: i32| #![auto] laid_on(up, layer, p, over, up.len() as int) == laid_on(from, layer, p, over, from.len() as int),
    {
        let own = self.deposits(design, tree, adopted).log;
        lemma_tree_negates(*self, design, tree, adopted, tree.links().len() as int);
        assert(up.take(down.len() as int) =~= down);
        assert forall|i: int| 0 <= i < down.len() - from.len() implies ({
            let (first, second) = (down[from.len() + i], #[trigger] up[down.len() + i]);
            &&& second.length == -first.length
            &&& second == (Commit { length: second.length, ..first })
        }) by {
            assert(up[down.len() + i] == signed(own, true)[i]);
            assert(down[from.len() + i] == own[i]);
            assert(own[i].length > i128::MIN);
        }
        assert forall|layer: usize, p: Point, over: i32| #![auto] laid_on(up, layer, p, over, up.len() as int) == laid_on(from, layer, p, over, from.len() as int) by {
            lemma_negated_sums(own, layer, p, over, own.len() as int);
            lemma_joined_sums(from, own, layer, p, over, down.len() as int);
            lemma_joined_sums(down, signed(own, true), layer, p, over, up.len() as int);
            assert(laid_on(own, layer, p, over, 0) == 0);
            assert(laid_on(signed(own, true), layer, p, over, 0) == 0);
        }
    }

    /// A tree that lies in the grid can be committed, whether it was taken over or not.
    pub proof fn a_held_tree_can_be_committed(&self, tree: GrTree, adopted: bool)
        requires
            self.wf(),
            self.holds_tree(tree),
        ensures
            self.can_commit(tree, adopted),
    {
        assert forall|k: int| 0 <= k < tree.links().len() implies self.can_commit_link(tree.nodes@[(#[trigger] tree.links()[k]).0], tree.nodes@[tree.links()[k].1], adopted) by {
            let (a, b) = (tree.nodes@[tree.links()[k].0], tree.nodes@[tree.links()[k].1]);
            assert(self.holds_link(a, b));
            if a.layer == b.layer {
                assert(self.layer_directions@[a.layer as int] <= 1);
            }
        }
    }
}

// ---- congestion ----

/// A flag for every edge, by layer (or direction), x and y.
pub type Flags = Vec<Vec<Vec<bool>>>;

/// Whether flags cover `n` planes of a grid.
pub open spec fn flags_cover(flags: Flags, n: int, x_size: int, y_size: int) -> bool {
    &&& flags@.len() == n
    &&& forall|l: int| 0 <= l < n ==> (#[trigger] flags@[l])@.len() == x_size
    &&& forall|l: int, x: int| 0 <= l < n && 0 <= x < x_size ==> (#[trigger] flags@[l]@[x])@.len() == y_size
}

/// The flag of the edge at a cell.
pub open spec fn flag_at(flags: Flags, l: int, p: Point) -> bool {
    flags@[l]@[p.x as int]@[p.y as int]
}

/// The number of flagged edges of a straight run from `c` to `hi`.
pub open spec fn flagged(flags: Flags, l: int, p: Point, d: int, c: int, hi: int) -> int
    decreases hi - c,
{
    if c >= hi { 0 } else { (if flag_at(flags, l, moved(p, d, c)) { 1int } else { 0int }) + flagged(flags, l, p, d, c + 1, hi) }
}

/// Whether the edge at `c` lies on the straight run from one point to another and is flagged.
pub open spec fn is_flagged_at(view: Flags, u: Point, v: Point, d: int, c: int) -> bool {
    lower(coord(u, d), coord(v, d)) <= c < higher(coord(u, d), coord(v, d)) && flag_at(view, d, moved(u, d, c))
}

/// Whether the run from one point to another crosses a flagged edge in a dimension.
pub open spec fn crosses_along(view: Flags, u: Point, v: Point, d: int) -> bool {
    exists|c: int| #[trigger] is_flagged_at(view, u, v, d, c)
}

/// Whether the straight run from one point to another crosses a flagged edge.
pub open spec fn crosses_flag(view: Flags, u: Point, v: Point) -> bool {
    crosses_along(view, u, v, if u.y == v.y { 0 } else { 1 })
}

/// Whether the straight run from one point to another crosses a flagged edge: along x where both have
/// the same y, else along y.
pub fn view_check(view: &Flags, u: Point, v: Point, x_size: usize, y_size: usize) -> (r: bool)
    requires
        flags_cover(*view, 2, x_size as int, y_size as int),
        0 <= u.x < x_size,
        0 <= u.y < y_size,
        0 <= v.x <= x_size,
        0 <= v.y <= y_size,
    ensures
        r == crosses_flag(*view, u, v),
{
    let d: usize = if u.y == v.y { 0 } else { 1 };
    let (a, b) = (u.get(d), v.get(d));
    let (lo, hi) = if a < b { (a, b) } else { (b, a) };
    let mut c: i32 = lo;
    while c < hi
        invariant
            flags_cover(*view, 2, x_size as int, y_size as int),
            0 <= u.x < x_size,
            0 <= u.y < y_size,
            0 <= v.x <= x_size,
            0 <= v.y <= y_size,
            d == (if u.y == v.y { 0int } else { 1int }),
            lo == lower(coord(u, d as int), coord(v, d as int)),
            hi == higher(coord(u, d as int), coord(v, d as int)),
            0 <= lo <= c <= hi,
            forall|k: int| lo <= k < c ==> !#[trigger] is_flagged_at(*view, u, v, d as int, k),
        decreases hi - c,
    {
        let mut cell = u;
        cell.set(d, c);
        assert(view@[d as int]@.len() == x_size);
        assert(view@[d as int]@[cell.x as int]@.len() == y_size);
        if view[d][cell.x as usize][cell.y as usize] {
            assert(cell == moved(u, d as int, c as int));
            assert(is_flagged_at(*view, u, v, d as int, c as int));
            assert(crosses_along(*view, u, v, d as int));
            return true;
        }
        c += 1;
    }
    false
}

impl GridGraph {
    /// The number of flagged edges of a link of a tree: none of a via.
    pub open spec fn link_flags(&self, over: Flags, a: GrTreeNode, b: GrTreeNode) -> int {
        if a.layer != b.layer {
            0
        } else {
            let d = self.layer_directions@[a.layer as int] as int;
            flagged(over, a.layer as int, a.p, d, lower(coord(a.p, d), coord(b.p, d)), higher(coord(a.p, d), coord(b.p, d)))
        }
    }

    /// The number of flagged edges of the first `n` links of a tree.
    pub open spec fn tree_flags(&self, over: Flags, nodes: Seq<GrTreeNode>, links: Seq<(int, int)>, n: int) -> int
        decreases n,
    {
        if n <= 0 { 0 } else { self.tree_flags(over, nodes, links, n - 1) + self.link_flags(over, nodes[links[n - 1].0], nodes[links[n - 1].1]) }
    }

    /// The number of edges that a tree's wires cross and that have more demand than capacity.
    #[verifier::rlimit(30)]
    pub fn check_congestion(&self, tree: &GrTree, over: &Flags) -> (r: usize)
        requires
            self.wf(),
            self.holds_tree(*tree),
            flags_cover(*over, self.num_layers as int, self.x_size as int, self.y_size as int),
            self.tree_flags(*over, tree.nodes@, tree.links(), tree.links().len() as int) <= usize::MAX,
        ensures
            r == self.tree_flags(*over, tree.nodes@, tree.links(), tree.links().len() as int),
    {
        let links = tree.edges();
        let ghost spec_links = tree.links();
        let ghost total = self.tree_flags(*over, tree.nodes@, spec_links, spec_links.len() as int);
        let mut num: usize = 0;
        let mut k: usize = 0;
        assert(spec_links.len() == links@.len()) by {
            assert(as_pairs(links@).len() == links@.len());
        }
        while k < links.len()
            invariant
                self.wf(),
                self.holds_tree(*tree),
                flags_cover(*over, self.num_layers as int, self.x_size as int, self.y_size as int),
                spec_links == tree.links(),
                as_pairs(links@) == spec_links,
                spec_links.len() == links@.len(),
                total == self.tree_flags(*over, tree.nodes@, spec_links, spec_links.len() as int),
                total <= usize::MAX,
                forall|i: int| 0 <= i < links@.len() ==> (#[trigger] links@[i]).0 < tree.nodes@.len() && links@[i].1 < tree.nodes@.len(),
                k <= links@.len(),
                num == self.tree_flags(*over, tree.nodes@, spec_links, k as int),
            decreases links@.len() - k,
        {
            let (n, c) = links[k];
            let a = &tree.nodes[n];
            let b = &tree.nodes[c];
            proof {
                assert(spec_links[k as int] == (n as int, c as int)) by {
                    assert(as_pairs(links@)[k as int] == (n as int, c as int));
                }
                assert(self.holds_link(tree.nodes@[spec_links[k as int].0], tree.nodes@[spec_links[k as int].1]));
                lemma_flags_grow(*self, *over, tree.nodes@, spec_links, k + 1, spec_links.len() as int);
                assert(self.tree_flags(*over, tree.nodes@, spec_links, k + 1) <= total);
            }
            if a.layer == b.layer {
                let layer: usize = a.layer as usize;
                let d: usize = self.layer_directions[layer];
                assert(self.layer_directions@[layer as int] <= 1);
                let (a0, b0) = (a.p.get(d), b.p.get(d));
                let (lo, hi) = if a0 < b0 { (a0, b0) } else { (b0, a0) };
                let ghost before = num;
                let mut i: i32 = lo;
                while i < hi
                    invariant
                        self.wf(),
                        flags_cover(*over, self.num_layers as int, self.x_size as int, self.y_size as int),
                        layer < self.num_layers,
                        d == self.layer_directions@[layer as int],
                        d <= 1,
                        self.has_cell(a.p),
                        0 <= lo <= i <= hi < self.extent(d as int),
                        num + flagged(*over, layer as int, a.p, d as int, i as int, hi as int) == before + flagged(*over, layer as int, a.p, d as int, lo as int, hi as int),
                        before + flagged(*over, layer as int, a.p, d as int, lo as int, hi as int) <= usize::MAX,
                    decreases hi - i,
                {
                    let mut cell = a.p;
                    cell.set(d, i);
                    assert(cell == moved(a.p, d as int, i as int));
                    assert(over@[layer as int]@.len() == self.x_size);
                    assert(over@[layer as int]@[cell.x as int]@.len() == self.y_size);
                    proof {
                        lemma_flagged(*over, layer as int, a.p, d as int, i + 1, hi as int);
                    }
                    if over[layer][cell.x as usize][cell.y as usize] {
                        num += 1;
                    }
                    i += 1;
                }
            }
            k += 1;
        }
        num
    }

    /// Whether an edge is flagged on a routed layer of a direction.
    pub open spec fn flagged_in(&self, over: Flags, d: int, x: int, y: int, n: int) -> bool {
        exists|l: int| self.min_routing_layer <= l < n && self.layer_directions@[l] == d && #[trigger] over@[l]@[x]@[y]
    }

    /// The flags by direction: an edge is flagged where it is on any routed layer of that direction.
    pub fn extract_congestion_view(&self, over: &Flags) -> (view: Flags)
        requires
            self.wf(),
            flags_cover(*over, self.num_layers as int, self.x_size as int, self.y_size as int),
        ensures
            flags_cover(view, 2, self.x_size as int, self.y_size as int),
            forall|d: int, x: int, y: int|
                0 <= d < 2 && 0 <= x < self.x_size && 0 <= y < self.y_size ==> #[trigger] view@[d]@[x]@[y] == self.flagged_in(*over, d, x, y, self.num_layers as int),
    {
        let mut view: Flags = Vec::new();
        let mut d: usize = 0;
        while d < 2
            invariant
                self.wf(),
                flags_cover(*over, self.num_layers as int, self.x_size as int, self.y_size as int),
                d <= 2,
                flags_cover(view, d as int, self.x_size as int, self.y_size as int),
                forall|e: int, x: int, y: int|
                    0 <= e < d && 0 <= x < self.x_size && 0 <= y < self.y_size ==> #[trigger] view@[e]@[x]@[y] == self.flagged_in(*over, e, x, y, self.num_layers as int),
            decreases 2 - d,
        {
            let plane = self.view_plane(over, d);
            let ghost v0 = view@;
            view.push(plane);
            proof {
                assert forall|e: int, x: int| 0 <= e < d + 1 && 0 <= x < self.x_size implies (#[trigger] view@[e]@[x])@.len() == self.y_size by {
                    if e < d {
                        assert(view@[e] == v0[e]);
                    }
                }
                assert forall|e: int, x: int, y: int| 0 <= e < d + 1 && 0 <= x < self.x_size && 0 <= y < self.y_size implies #[trigger] view@[e]@[x]@[y] == self.flagged_in(*over, e, x, y, self.num_layers as int) by {
                    if e < d {
                        assert(view@[e] == v0[e]);
                    }
                }
            }
            d += 1;
        }
        view
    }

    fn view_plane(&self, over: &Flags, d: usize) -> (plane: Vec<Vec<bool>>)
        requires
            self.wf(),
            flags_cover(*over, self.num_layers as int, self.x_size as int, self.y_size as int),
        ensures
            plane@.len() == self.x_size,
            forall|x: int| 0 <= x < self.x_size ==> (#[trigger] plane@[x])@.len() == self.y_size,
            forall|x: int, y: int| 0 <= x < self.x_size && 0 <= y < self.y_size ==> #[trigger] plane@[x]@[y] == self.flagged_in(*over, d as int, x, y, self.num_layers as int),
    {
        let mut plane: Vec<Vec<bool>> = Vec::new();
        let mut x: usize = 0;
        while x < self.x_size
            invariant
                self.wf(),
                flags_cover(*over, self.num_layers as int, self.x_size as int, self.y_size as int),
                x <= self.x_size,
                plane@.len() == x,
                forall|i: int| 0 <= i < x ==> (#[trigger] plane@[i])@.len() == self.y_size,
                forall|i: int, j: int| 0 <= i < x && 0 <= j < self.y_size ==> #[trigger] plane@[i]@[j] == self.flagged_in(*over, d as int, i, j, self.num_layers as int),
            decreases self.x_size - x,
        {
            let mut column: Vec<bool> = Vec::new();
            let mut y: usize = 0;
            while y < self.y_size
                invariant
                    self.wf(),
                    flags_cover(*over, self.num_layers as int, self.x_size as int, self.y_size as int),
                    x < self.x_size,
                    y <= self.y_size,
                    column@.len() == y,
                    forall|j: int| 0 <= j < y ==> #[trigger] column@[j] == self.flagged_in(*over, d as int, x as int, j, self.num_layers as int),
                decreases self.y_size - y,
            {
                let mut found = false;
                let mut l: usize = self.min_routing_layer;
                while l < self.num_layers
                    invariant
                        self.wf(),
                        flags_cover(*over, self.num_layers as int, self.x_size as int, self.y_size as int),
                        x < self.x_size,
                        y < self.y_size,
                        self.min_routing_layer <= l,
                        l <= self.num_layers || l == self.min_routing_layer,
                        found == self.flagged_in(*over, d as int, x as int, y as int, l as int),
                    decreases self.num_layers - l,
                {
                    assert(over@[l as int]@.len() == self.x_size);
                    assert(over@[l as int]@[x as int]@.len() == self.y_size);
                    let ghost f0 = found;
                    if self.layer_directions[l] == d && over[l][x][y] {
                        found = true;
                    }
                    proof {
                        if f0 {
                            let m = choose|m: int| self.min_routing_layer <= m < l && self.layer_directions@[m] == d && #[trigger] over@[m]@[x as int]@[y as int];
                            assert(over@[m]@[x as int]@[y as int]);
                            assert(self.flagged_in(*over, d as int, x as int, y as int, l + 1));
                        }
                        if found && !f0 {
                            assert(over@[l as int]@[x as int]@[y as int]);
                        }
                    }
                    l += 1;
                }
                proof {
                    assert(found == self.flagged_in(*over, d as int, x as int, y as int, self.num_layers as int));
                }
                column.push(found);
                y += 1;
            }
            plane.push(column);
            x += 1;
        }
        plane
    }

    /// The routed layers of a direction, from the first `n`.
    pub open spec fn layers_along(&self, d: int, n: int) -> Seq<usize>
        decreases n,
    {
        if n <= self.min_routing_layer {
            Seq::empty()
        } else {
            let s = self.layers_along(d, n - 1);
            if self.layer_directions@[n - 1] == d { s.push((n - 1) as usize) } else { s }
        }
    }

    /// The routed layers of a direction.
    pub fn direction_layers(&self, direction: usize) -> (layers: Vec<usize>)
        requires
            self.wf(),
        ensures
            layers@ == self.layers_along(direction as int, self.num_layers as int),
    {
        let mut layers: Vec<usize> = Vec::new();
        let mut l: usize = self.min_routing_layer;
        while l < self.num_layers
            invariant
                self.wf(),
                self.min_routing_layer <= l,
                l <= self.num_layers || l == self.min_routing_layer,
                layers@ == self.layers_along(direction as int, l as int),
            decreases self.num_layers - l,
        {
            if self.layer_directions[l] == direction {
                layers.push(l);
            }
            l += 1;
        }
        layers
    }

    /// The edges of a straight wire, in ascending order; none where its ends are not aligned with the
    /// layer's direction.
    pub fn wire_edges(&self, layer: usize, u: Point, v: Point) -> (r: Option<Vec<Commit>>)
        requires
            self.wf(),
            layer < self.num_layers,
            self.has_cell(u),
            self.has_cell(v),
        ensures
            ({
                let d = self.layer_directions@[layer as int] as int;
                match r {
                    Some(edges) => {
                        &&& coord(u, 1 - d) == coord(v, 1 - d)
                        &&& edges@ == straight(layer as int, u, d, lower(coord(u, d), coord(v, d)), higher(coord(u, d), coord(v, d)))
                    },
                    None => coord(u, 1 - d) != coord(v, 1 - d),
                }
            }),
    {
        let d: usize = self.layer_directions[layer];
        assert(self.layer_directions@[layer as int] <= 1);
        if u.get(1 - d) != v.get(1 - d) {
            return None;
        }
        let (a, b) = (u.get(d), v.get(d));
        let (lo, hi) = if a < b { (a, b) } else { (b, a) };
        let mut edges: Vec<Commit> = Vec::new();
        self.deposit_straight(layer, u, d, lo, hi, &mut edges);
        assert(edges@ =~= straight(layer as int, u, d as int, lo as int, hi as int));
        Some(edges)
    }
}

proof fn lemma_flagged(over: Flags, l: int, p: Point, d: int, c: int, hi: int)
    ensures
        flagged(over, l, p, d, c, hi) >= 0,
    decreases hi - c,
{
    if c < hi {
        lemma_flagged(over, l, p, d, c + 1, hi);
    }
}

proof fn lemma_flags_grow(g: GridGraph, over: Flags, nodes: Seq<GrTreeNode>, links: Seq<(int, int)>, m: int, n: int)
    requires
        m <= n,
    ensures
        g.tree_flags(over, nodes, links, m) <= g.tree_flags(over, nodes, links, n),
    decreases n - m,
{
    if m < n {
        lemma_flags_grow(g, over, nodes, links, m, n - 1);
        if n > 0 {
            let (a, b) = (nodes[links[n - 1].0], nodes[links[n - 1].1]);
            let d = g.layer_directions@[a.layer as int] as int;
            lemma_flagged(over, a.layer as int, a.p, d, lower(coord(a.p, d), coord(b.p, d)), higher(coord(a.p, d), coord(b.p, d)));
        }
    }
}

// ---- what a tree changes ----

/// An edge of the view by direction.
#[derive(Debug, Clone, Copy, PartialEq, Eq, Structural)]
pub struct ViewEdge {
    pub direction: usize,
    pub x: i32,
    pub y: i32,
}

impl GridGraph {
    /// The edge of the view at a cell, none past the last gcell.
    pub open spec fn view_edge(&self, d: int, p: Point) -> Seq<ViewEdge> {
        if coord(p, d) >= self.extent(d) - 1 { Seq::empty() } else { seq![ViewEdge { direction: d as usize, x: p.x, y: p.y }] }
    }

    /// The edges of the view along a straight run from `c` to `hi`.
    pub open spec fn view_run(&self, d: int, p: Point, c: int, hi: int) -> Seq<ViewEdge>
        decreases hi - c,
    {
        if c >= hi { Seq::empty() } else { self.view_edge(d, moved(p, d, c)) + self.view_run(d, p, c + 1, hi) }
    }

    /// The edges of the view that the vias from layer `l` to layer `hi` change: on every layer that they
    /// leave the edge at the cell and the one before it.
    pub open spec fn view_vias(&self, p: Point, l: int, hi: int) -> Seq<ViewEdge>
        decreases hi - l,
    {
        if l >= hi {
            Seq::empty()
        } else {
            let d = self.layer_directions@[l] as int;
            self.view_edge(d, p) + (if coord(p, d) > 0 { self.view_edge(d, moved(p, d, coord(p, d) - 1)) } else { Seq::empty() }) + self.view_vias(p, l + 1, hi)
        }
    }

    /// The edges of the view that a link changes.
    pub open spec fn view_link(&self, a: GrTreeNode, b: GrTreeNode) -> Seq<ViewEdge> {
        if a.layer == b.layer {
            let d = self.layer_directions@[a.layer as int] as int;
            self.view_run(d, a.p, lower(coord(a.p, d), coord(b.p, d)), higher(coord(a.p, d), coord(b.p, d)))
        } else {
            self.view_vias(a.p, lower(a.layer as int, b.layer as int), higher(a.layer as int, b.layer as int))
        }
    }

    /// The edges of the view that the first `n` links of a tree change.
    pub open spec fn view_tree(&self, nodes: Seq<GrTreeNode>, links: Seq<(int, int)>, n: int) -> Seq<ViewEdge>
        decreases n,
    {
        if n <= 0 { Seq::empty() } else { self.view_tree(nodes, links, n - 1) + self.view_link(nodes[links[n - 1].0], nodes[links[n - 1].1]) }
    }

    fn push_edge(&self, d: usize, p: Point, out: &mut Vec<ViewEdge>)
        requires
            self.wf(),
            d <= 1,
            self.has_cell(p),
        ensures
            final(out)@ == old(out)@ + self.view_edge(d as int, p),
    {
        let ghost out0 = out@;
        if (p.get(d) as usize) < self.size(d) - 1 {
            out.push(ViewEdge { direction: d, x: p.x, y: p.y });
        }
        assert(out@ =~= out0 + self.view_edge(d as int, p));
    }

    fn push_run(&self, d: usize, p: Point, from: i32, to: i32, out: &mut Vec<ViewEdge>)
        requires
            self.wf(),
            d <= 1,
            self.has_cell(p),
            0 <= from <= to < self.extent(d as int),
        ensures
            final(out)@ == old(out)@ + self.view_run(d as int, p, from as int, to as int),
    {
        let ghost all = out@ + self.view_run(d as int, p, from as int, to as int);
        let mut c: i32 = from;
        while c < to
            invariant
                self.wf(),
                d <= 1,
                self.has_cell(p),
                0 <= from <= c <= to < self.extent(d as int),
                out@ + self.view_run(d as int, p, c as int, to as int) == all,
            decreases to - c,
        {
            let mut cell = p;
            cell.set(d, c);
            let ghost before = out@;
            self.push_edge(d, cell, out);
            proof {
                let (here, rest) = (self.view_edge(d as int, moved(p, d as int, c as int)), self.view_run(d as int, p, c + 1, to as int));
                assert(cell == moved(p, d as int, c as int));
                assert(before + (here + rest) =~= (before + here) + rest);
            }
            c += 1;
        }
        assert(out@ =~= all);
    }

    fn push_vias(&self, p: Point, from: i32, to: i32, out: &mut Vec<ViewEdge>)
        requires
            self.wf(),
            self.has_cell(p),
            0 <= from <= to <= self.num_layers,
        ensures
            final(out)@ == old(out)@ + self.view_vias(p, from as int, to as int),
    {
        let ghost all = out@ + self.view_vias(p, from as int, to as int);
        let mut l: i32 = from;
        while l < to
            invariant
                self.wf(),
                self.has_cell(p),
                0 <= from <= l <= to <= self.num_layers,
                out@ + self.view_vias(p, l as int, to as int) == all,
            decreases to - l,
        {
            let d: usize = self.layer_directions[l as usize];
            assert(self.layer_directions@[l as int] <= 1);
            let ghost before = out@;
            let ghost rest = self.view_vias(p, l + 1, to as int);
            self.push_edge(d, p, out);
            let ghost first = self.view_edge(d as int, p);
            let ghost second = if coord(p, d as int) > 0 { self.view_edge(d as int, moved(p, d as int, coord(p, d as int) - 1)) } else { Seq::empty() };
            if p.get(d) > 0 {
                let mut cell = p;
                cell.set(d, p.get(d) - 1);
                self.push_edge(d, cell, out);
            }
            proof {
                assert(out@ =~= before + first + second);
                assert(out@ + rest =~= before + (first + second + rest));
            }
            l += 1;
        }
        assert(out@ =~= all);
    }

    /// Whether no via of a tree leaves a layer that is not there.
    pub open spec fn vias_fit(&self, tree: GrTree) -> bool {
        forall|k: int| 0 <= k < tree.links().len() ==> tree.nodes@[(#[trigger] tree.links()[k]).0].layer <= self.num_layers && tree.nodes@[tree.links()[k].1].layer <= self.num_layers
    }

    /// The edges of the view by direction that a tree changes, in walking order: those that its wires
    /// cross, and at each via, on every layer that it leaves, the edge at the cell and the one before.
    #[verifier::rlimit(30)]
    pub fn changed_edges(&self, tree: &GrTree) -> (out: Vec<ViewEdge>)
        requires
            self.wf(),
            self.holds_tree(*tree),
            self.vias_fit(*tree),
        ensures
            out@ == self.view_tree(tree.nodes@, tree.links(), tree.links().len() as int),
    {
        let links = tree.edges();
        let ghost spec_links = tree.links();
        let mut out: Vec<ViewEdge> = Vec::new();
        let mut k: usize = 0;
        assert(spec_links.len() == links@.len()) by {
            assert(as_pairs(links@).len() == links@.len());
        }
        while k < links.len()
            invariant
                self.wf(),
                self.holds_tree(*tree),
                self.vias_fit(*tree),
                spec_links == tree.links(),
                as_pairs(links@) == spec_links,
                spec_links.len() == links@.len(),
                forall|i: int| 0 <= i < links@.len() ==> (#[trigger] links@[i]).0 < tree.nodes@.len() && links@[i].1 < tree.nodes@.len(),
                k <= links@.len(),
                out@ == self.view_tree(tree.nodes@, spec_links, k as int),
            decreases links@.len() - k,
        {
            let (n, c) = links[k];
            let a = &tree.nodes[n];
            let b = &tree.nodes[c];
            proof {
                assert(spec_links[k as int] == (n as int, c as int)) by {
                    assert(as_pairs(links@)[k as int] == (n as int, c as int));
                }
                assert(self.holds_link(tree.nodes@[spec_links[k as int].0], tree.nodes@[spec_links[k as int].1]));
            }
            if a.layer == b.layer {
                let d: usize = self.layer_directions[a.layer as usize];
                assert(self.layer_directions@[a.layer as int] <= 1);
                let (a0, b0) = (a.p.get(d), b.p.get(d));
                let (lo, hi) = if a0 < b0 { (a0, b0) } else { (b0, a0) };
                self.push_run(d, a.p, lo, hi, &mut out);
            } else {
                let (lo, hi) = if a.layer < b.layer { (a.layer, b.layer) } else { (b.layer, a.layer) };
                self.push_vias(a.p, lo, hi, &mut out);
            }
            k += 1;
        }
        out
    }
}

impl GridGraph {
    /// The gcells that an interval overlaps lie in the grid.
    pub proof fn rows_stay_in_the_grid(&self, d: int, loc: Interval)
        requires
            self.wf(),
            0 <= d <= 1,
        ensures
            rows_within(self.gridlines@[d]@, loc) matches Some((lo, hi)) ==> 0 <= lo && hi < self.extent(d),
    {
        lemma_first_range(self.gridlines@[d]@, loc.low as int, 0);
        lemma_first_range(self.gridlines@[d]@, loc.high as int, 0);
        assert(lines_ok(self.gridlines@[d]@));
    }
}

impl GridGraph {
    /// The first gcell that an interval overlaps is none past the last gridline.
    pub proof fn rows_start_in_the_grid(&self, d: int, loc: Interval)
        requires
            self.wf(),
            0 <= d <= 1,
        ensures
            rows_within(self.gridlines@[d]@, loc) matches Some((lo, hi)) ==> 0 <= lo <= self.extent(d) && hi >= -1,
    {
        lemma_first_range(self.gridlines@[d]@, loc.low as int, 0);
        lemma_first_range(self.gridlines@[d]@, loc.high as int, 0);
        assert(lines_ok(self.gridlines@[d]@));
    }
}

/// Whether a cut takes something of a track of a row across an edge.
pub open spec fn bears_on(c: Cut, row: int, e: int, track: int) -> bool {
    c.rows.has(row) && c.edges.has(e) && c.tracks.has(track)
}

/// Whether a cut lies across a gridline.
pub open spec fn lies_across(c: Cut, gridline: i32) -> bool {
    c.span.low <= gridline <= c.span.high
}

proof fn lemma_one_more(s: Seq<Cut>, last: Cut, c: Cut)
    ensures
        s.push(last).contains(c) == (s.contains(c) || c == last),
{
    let t = s.push(last);
    assert(t[s.len() as int] == last);
    if s.contains(c) {
        let i = choose|i: int| 0 <= i < s.len() && s[i] == c;
        assert(t[i] == c);
    }
    if t.contains(c) {
        let i = choose|i: int| 0 <= i < t.len() && t[i] == c;
        if i < s.len() {
            assert(s[i] == c);
        }
    }
}

proof fn lemma_filed(cuts: Seq<Cut>, row: int, e: int, c: Cut, n: int)
    requires
        0 <= n <= cuts.len(),
    ensures
        in_row(cuts, row, n).contains(c) == (c.rows.has(row) && cuts.take(n).contains(c)),
        at_edge(cuts, e, n).contains(c) == (c.edges.has(e) && cuts.take(n).contains(c)),
    decreases n,
{
    if n > 0 {
        lemma_filed(cuts, row, e, c, n - 1);
        let last = cuts[n - 1];
        assert(cuts.take(n) =~= cuts.take(n - 1).push(last));
        lemma_one_more(cuts.take(n - 1), last, c);
        lemma_one_more(in_row(cuts, row, n - 1), last, c);
        lemma_one_more(at_edge(cuts, e, n - 1), last, c);
    } else {
        assert(cuts.take(0) =~= Seq::empty());
    }
}

/// Whether an interval is what a list of cuts leaves of a track around a gridline.
spec fn is_left_by(s: Interval, cuts: Seq<Cut>, n: int, track: int, gridline: i32, full: Interval) -> bool {
    &&& full.low <= s.low <= gridline <= s.high <= full.high
    &&& forall|i: int|
        0 <= i < n && (#[trigger] cuts[i]).tracks.has(track) && cuts[i].span.low <= cuts[i].span.high ==> {
            &&& lies_across(cuts[i], gridline) ==> s.low == s.high
            &&& cuts[i].span.high < gridline ==> cuts[i].span.high <= s.low
            &&& cuts[i].span.low > gridline ==> s.high <= cuts[i].span.low
        }
    &&& s.low == full.low || exists|i: int|
        0 <= i < n && (#[trigger] cuts[i]).tracks.has(track) && (lies_across(cuts[i], gridline) || cuts[i].span.high == s.low)
    &&& s.high == full.high || exists|i: int|
        0 <= i < n && (#[trigger] cuts[i]).tracks.has(track) && (lies_across(cuts[i], gridline) || cuts[i].span.low == s.high)
}

proof fn lemma_left(cuts: Seq<Cut>, n: int, track: int, gridline: i32, full: Interval)
    requires
        full.low <= gridline <= full.high,
        0 <= n <= cuts.len(),
    ensures
        is_left_by(span_after(cuts, n, track, gridline, full), cuts, n, track, gridline, full),
    decreases n,
{
    if n > 0 {
        lemma_left(cuts, n - 1, track, gridline, full);
        let u = span_after(cuts, n - 1, track, gridline, full);
        let s = span_after(cuts, n, track, gridline, full);
        let c = cuts[n - 1];
        if c.tracks.has(track) {
            if s.low == u.low && s.low != full.low {
                let i = choose|i: int|
                    0 <= i < n - 1 && (#[trigger] cuts[i]).tracks.has(track) && (lies_across(cuts[i], gridline) || cuts[i].span.high == u.low);
                assert(cuts[i].tracks.has(track));
            }
            if s.high == u.high && s.high != full.high {
                let i = choose|i: int|
                    0 <= i < n - 1 && (#[trigger] cuts[i]).tracks.has(track) && (lies_across(cuts[i], gridline) || cuts[i].span.low == u.high);
                assert(cuts[i].tracks.has(track));
            }
        }
    }
}

/// What is usable of a track across an edge is the longest stretch round the gridline between both
/// gcells that no obstacle on that track touches: it stays within the edge and holds the gridline, every
/// obstacle lies beyond one of its ends, and each end is that of the edge or of an obstacle. An obstacle
/// across the gridline leaves nothing.
pub proof fn what_is_usable_is_clear_of_every_obstacle(cuts: Seq<Cut>, row: int, e: int, track: int, along: Seq<i32>)
    requires
        edge_span(along, e).low <= along[e + 1] <= edge_span(along, e).high,
    ensures
        exists|s: Interval| {
            &&& #[trigger] s.length() == usable_length(cuts, row, e, track, along)
            &&& edge_span(along, e).low <= s.low <= along[e + 1] <= s.high <= edge_span(along, e).high
            &&& forall|c: Cut|
                #[trigger] cuts.contains(c) && bears_on(c, row, e, track) && c.span.low <= c.span.high ==> {
                    &&& lies_across(c, along[e + 1]) ==> s.length() == 0
                    &&& c.span.high < along[e + 1] ==> c.span.high <= s.low
                    &&& c.span.low > along[e + 1] ==> s.high <= c.span.low
                }
            &&& s.low == edge_span(along, e).low || exists|c: Cut|
                #[trigger] cuts.contains(c) && bears_on(c, row, e, track) && (lies_across(c, along[e + 1]) || c.span.high == s.low)
            &&& s.high == edge_span(along, e).high || exists|c: Cut|
                #[trigger] cuts.contains(c) && bears_on(c, row, e, track) && (lies_across(c, along[e + 1]) || c.span.low == s.high)
        },
{
    let filed = in_row(cuts, row, cuts.len() as int);
    let here = at_edge(filed, e, filed.len() as int);
    assert(cuts.take(cuts.len() as int) =~= cuts);
    assert(filed.take(filed.len() as int) =~= filed);
    let full = edge_span(along, e);
    let n = here.len() as int;
    lemma_left(here, n, track, along[e + 1], full);
    let s = span_after(here, n, track, along[e + 1], full);
    assert forall|c: Cut| here.contains(c) == (cuts.contains(c) && c.rows.has(row) && c.edges.has(e)) by {
        lemma_filed(cuts, row, e, c, cuts.len() as int);
        lemma_filed(filed, row, e, c, filed.len() as int);
    }
    assert forall|c: Cut| #[trigger] cuts.contains(c) && bears_on(c, row, e, track) && c.span.low <= c.span.high implies {
        &&& lies_across(c, along[e + 1]) ==> s.length() == 0
        &&& c.span.high < along[e + 1] ==> c.span.high <= s.low
        &&& c.span.low > along[e + 1] ==> s.high <= c.span.low
    } by {
        assert(here.contains(c));
        let i = choose|i: int| 0 <= i < here.len() && here[i] == c;
        assert(here[i].tracks.has(track));
    }
    if s.low != full.low {
        let i = choose|i: int| 0 <= i < n && (#[trigger] here[i]).tracks.has(track) && (lies_across(here[i], along[e + 1]) || here[i].span.high == s.low);
        assert(here.contains(here[i]));
        assert(cuts.contains(here[i]) && bears_on(here[i], row, e, track));
    }
    if s.high != full.high {
        let i = choose|i: int| 0 <= i < n && (#[trigger] here[i]).tracks.has(track) && (lies_across(here[i], along[e + 1]) || here[i].span.low == s.high);
        assert(here.contains(here[i]));
        assert(cuts.contains(here[i]) && bears_on(here[i], row, e, track));
    }
    assert(s.length() == usable_length(cuts, row, e, track, along));
}

/// A via or a wire against its layer's direction lays its length on exactly the edges of the layer that
/// end at its cell and have a length: the one that leaves it, where there is one, and the one that comes to
/// it, each over the length of both.
pub proof fn a_length_is_spread_over_the_edges_that_end_at_the_cell(g: GridGraph, layer: int, loc: Point, length: i128, q: Point, over: i32)
    requires
        g.wf(),
        g.flanks_fit(),
        0 <= layer < g.num_layers,
        g.has_cell(loc),
    ensures
        ({
            let d = g.layer_directions@[layer] as int;
            g.spread(layer, loc, length).contains(Commit { layer: layer as usize, p: q, length, over }) <==> {
                &&& over == g.length_before(d, coord(loc, d)) + g.length_after(d, coord(loc, d))
                &&& q == loc && coord(q, d) + 1 < g.extent(d) && g.span_of(d, coord(q, d)) > 0 || (coord(loc, d) > 0 && q == moved(
                    loc,
                    d,
                    coord(loc, d) - 1,
                ) && g.span_of(d, coord(q, d)) > 0)
            }
        }),
{
    let d = g.layer_directions@[layer] as int;
    let at = coord(loc, d);
    let lines = g.gridlines@[d]@;
    assert(lines_ok(lines));
    assert(0 <= at < g.extent(d));
    if at > 0 {
        assert(lines[at - 1] < lines[at] && lines[at] < lines[at + 1]);
        assert(g.span_of(d, at - 1) >= 0);
    }
    if at < g.extent(d) - 1 {
        assert(lines[at] < lines[at + 1] && lines[at + 1] < lines[at + 2]);
        assert(g.span_of(d, at) >= 0);
    }
    assert(fits(g.length_before(d, at) + g.length_after(d, at)));
    let (f, s) = (g.flanks(layer, loc), g.spread(layer, loc, length));
    let c = Commit { layer: layer as usize, p: q, length, over };
    let sum = (g.length_before(d, at) + g.length_after(d, at)) as i32;
    if s.contains(c) {
        let i = choose|i: int| 0 <= i < s.len() && s[i] == c;
        assert(f[i].0 == q && f[i].1 == over);
    }
    if over == sum && q == loc && at + 1 < g.extent(d) && g.span_of(d, at) > 0 {
        let i = f.len() - 1;
        assert(f[i] == (loc, sum));
        assert(s[i] == c);
    }
    if over == sum && at > 0 && q == moved(loc, d, at - 1) && g.span_of(d, at - 1) > 0 {
        assert(f[0] == (q, sum));
        assert(s[0] == c);
    }
}

/// Taking a tree up takes off every edge what laying it down laid there.
pub proof fn taking_up_takes_what_was_laid(log: Seq<Commit>, layer: usize, p: Point, over: i32, n: int)
    requires
        0 <= n <= log.len(),
        forall|i: int| 0 <= i < log.len() ==> (#[trigger] log[i]).length > i128::MIN,
    ensures
        laid_on(signed(log, true), layer, p, over, n) == -laid_on(signed(log, false), layer, p, over, n),
    decreases n,
{
    if n > 0 {
        taking_up_takes_what_was_laid(log, layer, p, over, n - 1);
        assert(log[n - 1].length > i128::MIN);
    }
}

/// The links of a tree that can be committed lay what each lays, link after link.
pub proof fn a_tree_lays_what_its_links_lay(g: GridGraph, design: Design, nodes: Seq<GrTreeNode>, links: Seq<(int, int)>, adopted: bool, n: int)
    requires
        0 <= n,
        g.tree_deposits(design, nodes, links, adopted, n).error is None,
    ensures
        g.tree_deposits(design, nodes, links, adopted, n).log == all_of(
            n,
            |k: int| g.link_deposits(design, nodes[links[k].0], nodes[links[k].1], adopted).log,
        ),
        forall|k: int| 0 <= k < n ==> (#[trigger] g.link_deposits(design, nodes[links[k].0], nodes[links[k].1], adopted)).error is None,
    decreases n,
{
    let f = |k: int| g.link_deposits(design, nodes[links[k].0], nodes[links[k].1], adopted).log;
    if n > 0 {
        a_tree_lays_what_its_links_lay(g, design, nodes, links, adopted, n - 1);
        lemma_all_next(n - 1, f);
    } else {
        lemma_all_none(f);
    }
}

/// A stack of vias lays, for each layer that it leaves, the lower length beside its cell on that layer
/// and the upper length on the next one.
pub proof fn a_stack_lays_on_both_layers_of_every_via(g: GridGraph, design: Design, p: Point, l: int, hi: int)
    requires
        hi < g.num_layers,
    ensures
        g.via_stack(design, p, l, hi).error is None,
        g.via_stack(design, p, l, hi).log == all_of(
            if l < hi { hi - l } else { 0 },
            |k: int| g.spread(l + k, p, design.via_demand_length_lower@[l + k]) + g.spread(l + k + 1, p, design.via_demand_length_upper@[l + k]),
        ),
    decreases hi - l,
{
    let f = |k: int| g.spread(l + k, p, design.via_demand_length_lower@[l + k]) + g.spread(l + k + 1, p, design.via_demand_length_upper@[l + k]);
    let m = l + 1;
    let rest = |k: int| g.spread(m + k, p, design.via_demand_length_lower@[m + k]) + g.spread(m + k + 1, p, design.via_demand_length_upper@[m + k]);
    if l < hi {
        a_stack_lays_on_both_layers_of_every_via(g, design, p, l + 1, hi);
        assert forall|i: int| 0 <= i < hi - l - 1 implies #[trigger] rest(i) == f(i + 1) by {
            assert(m + i == l + (i + 1));
        }
        lemma_all_first(hi - l - 1, f, rest);
        assert(g.via_stack(design, p, l, hi).log =~= f(0) + all_of(hi - l - 1, rest));
    } else {
        lemma_all_none(f);
    }
}

/// A wire against its layer's direction lays its length beside every cell that it crosses.
pub proof fn a_wire_the_wrong_way_lays_beside_every_cell_it_crosses(g: GridGraph, layer: int, p: Point, length: i128, c: int, hi: int)
    ensures
        g.wrong_way(layer, p, length, c, hi) == all_of(
            if c < hi { hi - c } else { 0 },
            |k: int| g.spread(layer, moved(p, 1 - g.layer_directions@[layer], c + k), length),
        ),
    decreases hi - c,
{
    let f = |k: int| g.spread(layer, moved(p, 1 - g.layer_directions@[layer], c + k), length);
    let rest = |k: int| g.spread(layer, moved(p, 1 - g.layer_directions@[layer], c + 1 + k), length);
    if c < hi {
        a_wire_the_wrong_way_lays_beside_every_cell_it_crosses(g, layer, p, length, c + 1, hi);
        assert forall|i: int| 0 <= i < hi - c - 1 implies #[trigger] rest(i) == f(i + 1) by {
            assert(c + 1 + i == c + (i + 1));
        }
        lemma_all_first(hi - c - 1, f, rest);
    } else {
        lemma_all_none(f);
    }
}

/// A wire counts every flagged edge that it crosses.
pub proof fn the_flagged_edges_of_a_wire_are_those_it_crosses(flags: Flags, l: int, p: Point, d: int, c: int, hi: int)
    ensures
        flagged(flags, l, p, d, c, hi) == sum_of(
            if c < hi { hi - c } else { 0 },
            |k: int| if flag_at(flags, l, moved(p, d, c + k)) { 1int } else { 0int },
        ),
    decreases hi - c,
{
    let f = |k: int| if flag_at(flags, l, moved(p, d, c + k)) { 1int } else { 0int };
    let rest = |k: int| if flag_at(flags, l, moved(p, d, c + 1 + k)) { 1int } else { 0int };
    if c < hi {
        the_flagged_edges_of_a_wire_are_those_it_crosses(flags, l, p, d, c + 1, hi);
        assert forall|i: int| 0 <= i < hi - c - 1 implies #[trigger] rest(i) == f(i + 1) by {
            assert(c + 1 + i == c + (i + 1));
        }
        lemma_sum_first(hi - c - 1, f, rest);
    } else {
        lemma_sum_none(f);
    }
}

/// A tree counts the flagged edges of each of its wires, and none for a via.
pub proof fn the_flagged_edges_of_a_tree_are_those_of_its_wires(g: GridGraph, over: Flags, nodes: Seq<GrTreeNode>, links: Seq<(int, int)>, n: int)
    requires
        0 <= n,
    ensures
        g.tree_flags(over, nodes, links, n) == sum_of(
            n,
            |k: int| if nodes[links[k].0].layer == nodes[links[k].1].layer { g.link_flags(over, nodes[links[k].0], nodes[links[k].1]) } else { 0 },
        ),
    decreases n,
{
    let f = |k: int| if nodes[links[k].0].layer == nodes[links[k].1].layer { g.link_flags(over, nodes[links[k].0], nodes[links[k].1]) } else { 0 };
    if n > 0 {
        the_flagged_edges_of_a_tree_are_those_of_its_wires(g, over, nodes, links, n - 1);
        lemma_sum_next(n - 1, f);
    } else {
        lemma_sum_none(f);
    }
}

/// A wire changes the edges of the view that it crosses.
pub proof fn a_wire_changes_the_edges_it_crosses(g: GridGraph, d: int, p: Point, c: int, hi: int)
    ensures
        g.view_run(d, p, c, hi) == all_of(
            if c < hi { hi - c } else { 0 },
            |k: int| if coord(moved(p, d, c + k), d) < g.extent(d) - 1 { seq![ViewEdge { direction: d as usize, x: moved(p, d, c + k).x, y: moved(p, d, c + k).y }] } else { Seq::empty() },
        ),
    decreases hi - c,
{
    let f = |k: int| if coord(moved(p, d, c + k), d) < g.extent(d) - 1 { seq![ViewEdge { direction: d as usize, x: moved(p, d, c + k).x, y: moved(p, d, c + k).y }] } else { Seq::empty() };
    let rest = |k: int| if coord(moved(p, d, c + 1 + k), d) < g.extent(d) - 1 { seq![ViewEdge { direction: d as usize, x: moved(p, d, c + 1 + k).x, y: moved(p, d, c + 1 + k).y }] } else { Seq::empty() };
    if c < hi {
        a_wire_changes_the_edges_it_crosses(g, d, p, c + 1, hi);
        assert forall|i: int| 0 <= i < hi - c - 1 implies #[trigger] rest(i) == f(i + 1) by {
            assert(c + 1 + i == c + (i + 1));
        }
        lemma_all_first(hi - c - 1, f, rest);
    } else {
        lemma_all_none(f);
    }
}

/// A tree changes the edges of the view that its links change, link after link.
pub proof fn a_tree_changes_what_its_links_change(g: GridGraph, nodes: Seq<GrTreeNode>, links: Seq<(int, int)>, n: int)
    requires
        0 <= n,
    ensures
        g.view_tree(nodes, links, n) == all_of(
            n,
            |k: int| g.view_link(nodes[links[k].0], nodes[links[k].1]),
        ),
    decreases n,
{
    let f = |k: int| g.view_link(nodes[links[k].0], nodes[links[k].1]);
    if n > 0 {
        a_tree_changes_what_its_links_change(g, nodes, links, n - 1);
        lemma_all_next(n - 1, f);
    } else {
        lemma_all_none(f);
    }
    assert(g.view_tree(nodes, links, n) =~= all_of(n, f));
}

/// What lies on an edge over one span is the sum of the lengths laid there.
pub proof fn what_is_laid_on_an_edge_is_summed(log: Seq<Commit>, layer: usize, p: Point, over: i32, n: int)
    requires
        0 <= n,
    ensures
        laid_on(log, layer, p, over, n) == sum_of(
            n,
            |k: int| if log[k].layer == layer && log[k].p == p && log[k].over == over { log[k].length as int } else { 0 },
        ),
    decreases n,
{
    let f = |k: int| if log[k].layer == layer && log[k].p == p && log[k].over == over { log[k].length as int } else { 0 };
    if n > 0 {
        what_is_laid_on_an_edge_is_summed(log, layer, p, over, n - 1);
        lemma_sum_next(n - 1, f);
    } else {
        lemma_sum_none(f);
    }
}

/// The shortest edge is one of the edges between the middles of gcells, and none is shorter.
pub proof fn the_shortest_edge_is_one_of_the_edges(lines: Seq<i32>, n: int)
    requires
        0 <= n,
    ensures
        is_least_of(shortest_edge(lines, n), i32::MAX as int, n, |k: int| middle(lines, k + 1) - middle(lines, k)),
    decreases n,
{
    let f = |k: int| middle(lines, k + 1) - middle(lines, k);
    if n > 0 {
        the_shortest_edge_is_one_of_the_edges(lines, n - 1);
        let m = shortest_edge(lines, (n - 1));
        assert forall|k: int| 0 <= k < n implies #[trigger] f(k) >= shortest_edge(lines, n) by {
            if k < n - 1 {
                assert(f(k) >= m);
            }
        }
        if shortest_edge(lines, n) == m {
            if m != i32::MAX as int {
                let k = choose|k: int| 0 <= k < n - 1 && #[trigger] f(k) == m;
                assert(f(k) == shortest_edge(lines, n));
            }
        } else {
            assert(f(n - 1) == shortest_edge(lines, n));
        }
    }
}

} // verus!
