//! Capacity adjustments: obstructions, the blocked-interval reductions, the resource save, and the
//! scaled capacities of layers and regions.

use crate::lists::{lemma_sum_next, lemma_sum_none, sum_of};
use vstd::prelude::*;
use vstd::string::StringExecFns;

use crate::capacity::{capacity_edge_order, edge_order, int_edges, lemma_edge_order, Direction};
use crate::grids::{
    at2, at3, fits, in_grid2, in_grid3, lemma_at2, lemma_at3, tdiv,
};
use crate::single::{quotient_ceil, quotient_floor, single_quotient_ceil, single_quotient_floor};
use crate::text::{dec, push_int, push_text, texts};
use crate::vecs::copy_vec;
use crate::Rect;

verus! {

/// One 3D or 2D edge's capacity state.
#[derive(Debug, Clone, Copy, PartialEq, Eq, Structural, Default)]
pub struct EdgeState {
    pub cap: u16,
    pub red: u16,
    pub real_cap: u16,
}

/// A blocked-interval key: `(x, y, layer)`.
pub type Tile = (i32, i32, i32);

/// A set of integers as right-open intervals: sorted, disjoint, and joined — two intervals that
/// overlap or merely touch are one. An empty interval adds nothing.
#[derive(Debug, PartialEq, Eq)]
pub struct IntervalSet(pub Vec<(i32, i32)>);

/// Whether the intervals are non-empty, ascending and neither overlap nor touch.
pub open spec fn intervals_wf(s: Seq<(i32, i32)>) -> bool {
    &&& forall|i: int| 0 <= i < s.len() ==> (#[trigger] s[i]).0 < s[i].1
    &&& forall|i: int, j: int| 0 <= i < j < s.len() ==> (#[trigger] s[i]).1 < (#[trigger] s[j]).0
}

/// Whether one of the intervals holds `p`.
pub open spec fn covers(s: Seq<(i32, i32)>, p: int) -> bool {
    exists|i: int| 0 <= i < s.len() && (#[trigger] s[i]).0 <= p < s[i].1
}

/// Whether `r` are the intervals of `s` with `[lo, hi)` added.
pub open spec fn is_joined(s: Seq<(i32, i32)>, lo: i32, hi: i32, r: Seq<(i32, i32)>) -> bool {
    &&& intervals_wf(r)
    &&& forall|p: int| #[trigger] covers(r, p) <==> covers(s, p) || lo <= p < hi
}

/// The intervals of `s` with `[lo, hi)` added; [`intervals_determined_by_coverage`] shows that there
/// is one such list.
pub open spec fn joined(s: Seq<(i32, i32)>, lo: i32, hi: i32) -> Seq<(i32, i32)> {
    choose|r: Seq<(i32, i32)>| is_joined(s, lo, hi, r)
}

/// The number of integers the intervals hold together.
pub open spec fn total_length(s: Seq<(i32, i32)>) -> int
    decreases s.len(),
{
    if s.len() == 0 {
        0
    } else {
        total_length(s.drop_last()) + (s.last().1 - s.last().0)
    }
}

/// The covered length over the track pitch, rounded up: 0 without a pitch, saturated to `i32`.
pub open spec fn track_count(s: Seq<(i32, i32)>, track_space: int) -> int {
    if track_space <= 0 {
        0
    } else {
        let n = (total_length(s) + track_space - 1) / track_space;
        if n > i32::MAX { i32::MAX as int } else { n }
    }
}

impl IntervalSet {
    pub open spec fn wf(&self) -> bool {
        intervals_wf(self.0@)
    }

    /// The empty set.
    pub fn new() -> (s: IntervalSet)
        ensures
            s.wf(),
            s.0@ == Seq::<(i32, i32)>::empty(),
    {
        IntervalSet(Vec::new())
    }

    /// Adds every integer of `[lo, hi)`.
    pub fn add(&mut self, lo: i32, hi: i32)
        requires
            old(self).wf(),
        ensures
            final(self).wf(),
            forall|p: int| #[trigger] covers(final(self).0@, p) <==> covers(old(self).0@, p) || lo <= p < hi,
            final(self).0@ == joined(old(self).0@, lo, hi),
    {
        if lo >= hi {
            proof {
                lemma_joined(self.0@, lo, hi, self.0@);
            }
            return;
        }
        let ghost s = self.0@;
        let n: usize = self.0.len();
        let mut out: Vec<(i32, i32)> = Vec::new();
        let mut i: usize = 0;
        while i < n && self.0[i].1 < lo
            invariant
                n == s.len(),
                self.0@ == s,
                i <= n,
                out@ == s.take(i as int),
                forall|j: int| 0 <= j < i ==> (#[trigger] s[j]).1 < lo,
            decreases n - i,
        {
            out.push(self.0[i]);
            i += 1;
            assert(out@ =~= s.take(i as int));
        }
        let ghost k = i as int;
        let (mut l, mut h) = (lo, hi);
        while i < n && self.0[i].0 <= h
            invariant
                n == s.len(),
                self.0@ == s,
                intervals_wf(s),
                0 <= k <= i <= n,
                k == n || s[k].1 >= lo,
                out@ == s.take(k),
                forall|j: int| 0 <= j < k ==> (#[trigger] s[j]).1 < lo,
                forall|j: int| 0 <= j < k ==> (#[trigger] s[j]).1 < l,
                l <= lo,
                hi <= h,
                lo < hi,
                forall|j: int| k <= j < i ==> l <= (#[trigger] s[j]).0 && s[j].1 <= h,
                h == hi || (i > k && h == s[i - 1].1),
                forall|p: int| l <= p < h ==> lo <= p < hi || #[trigger] covers(s.subrange(k, i as int), p),
            decreases n - i,
        {
            let (a, b) = self.0[i];
            proof {
                assert(s[i as int].1 >= lo) by {
                    if i > k {
                        assert(s[k].1 < s[i as int].0);
                    }
                }
            }
            if a < l {
                l = a;
            }
            if b > h {
                h = b;
            }
            i += 1;
            proof {
                let (t, t0) = (s.subrange(k, i as int), s.subrange(k, i - 1));
                assert forall|p: int| l <= p < h implies lo <= p < hi || #[trigger] covers(t, p) by {
                    if a <= p < b {
                        assert(t[i - 1 - k].0 <= p < t[i - 1 - k].1);
                    } else if covers(t0, p) {
                        let j = choose|j: int| 0 <= j < t0.len() && (#[trigger] t0[j]).0 <= p < t0[j].1;
                        assert(t[j] == t0[j]);
                    }
                }
            }
        }
        let ghost m = i as int;
        out.push((l, h));
        let ghost head = s.take(k).push((l, h));
        while i < n
            invariant
                n == s.len(),
                self.0@ == s,
                0 <= k <= m <= i <= n,
                head == s.take(k).push((l, h)),
                out@ == head + s.subrange(m, i as int),
            decreases n - i,
        {
            out.push(self.0[i]);
            i += 1;
            assert(out@ =~= head + s.subrange(m, i as int));
        }
        self.0 = out;
        proof {
            let o = out@;
            assert forall|x: int| 0 <= x < o.len() implies (#[trigger] o[x]).0 < o[x].1 by {
                if x > k {
                    assert(o[x] == s[x - k - 1 + m]);
                }
            }
            assert forall|x: int, y: int| 0 <= x < y < o.len() implies (#[trigger] o[x]).1 < (
            #[trigger] o[y]).0 by {
                if y > k {
                    assert(o[y] == s[y - k - 1 + m]);
                    if x > k {
                        assert(o[x] == s[x - k - 1 + m]);
                    } else if x == k {
                        assert(s[m].0 > h);
                        if y - k - 1 > 0 {
                            assert(s[m].1 < o[y].0);
                        }
                    } else {
                        assert(o[x] == s[x]);
                    }
                } else {
                    assert(o[x] == s[x]);
                }
            }
            assert forall|p: int| #[trigger] covers(o, p) <==> covers(s, p) || lo <= p < hi by {
                if covers(o, p) {
                    let x = choose|x: int| 0 <= x < o.len() && (#[trigger] o[x]).0 <= p < o[x].1;
                    if x > k {
                        assert(o[x] == s[x - k - 1 + m]);
                    } else if x < k {
                        assert(o[x] == s[x]);
                    } else if !(lo <= p < hi) {
                        let t = s.subrange(k, m);
                        assert(covers(t, p));
                        let j = choose|j: int| 0 <= j < t.len() && (#[trigger] t[j]).0 <= p < t[j].1;
                        assert(s[k + j] == t[j]);
                    }
                }
                if covers(s, p) {
                    let x = choose|x: int| 0 <= x < s.len() && (#[trigger] s[x]).0 <= p < s[x].1;
                    if x < k {
                        assert(o[x] == s[x]);
                    } else if x < m {
                        assert(o[k] == (l, h));
                    } else {
                        assert(o[x - m + k + 1] == s[x]);
                    }
                }
                if lo <= p < hi {
                    assert(o[k] == (l, h));
                }
            }
            lemma_joined(s, lo, hi, o);
        }
    }

    /// How many tracks of the pitch the covered length blocks, rounded up.
    pub fn blocked_track_count(&self, track_space: i32) -> (r: i32)
        requires
            self.wf(),
        ensures
            r == track_count(self.0@, track_space as int),
    {
        if track_space <= 0 {
            return 0;
        }
        let ghost s = self.0@;
        let mut sum: i64 = 0;
        let mut i: usize = 0;
        while i < self.0.len()
            invariant
                self.0@ == s,
                intervals_wf(s),
                i <= s.len(),
                sum == total_length(s.take(i as int)),
                0 <= sum,
                i == 0 ==> sum == 0,
                i > 0 ==> sum <= s[i - 1].1 - s[0].0,
            decreases s.len() - i,
        {
            let (a, b) = self.0[i];
            proof {
                assert(s.take(i + 1).drop_last() =~= s.take(i as int));
                assert(s.take(i + 1).last() == s[i as int]);
                if i > 0 {
                    assert(s[i - 1].1 < s[i as int].0);
                }
            }
            sum += (b as i64) - (a as i64);
            i += 1;
        }
        assert(s.take(i as int) =~= s);
        assert(sum <= 0x1_0000_0000);
        let t: i64 = track_space as i64;
        let n: i64 = (sum + t - 1) / t;
        assert(0 <= n <= sum) by (nonlinear_arith)
            requires
                n == (sum + t - 1) / (t as int),
                t >= 1,
                sum >= 0,
        ;
        if n > i32::MAX as i64 {
            i32::MAX
        } else {
            n as i32
        }
    }
}

impl Clone for IntervalSet {
    fn clone(&self) -> (r: IntervalSet)
        ensures
            r.0@ == self.0@,
    {
        IntervalSet(copy_vec(&self.0))
    }
}

impl Default for IntervalSet {
    fn default() -> (s: IntervalSet)
        ensures
            s.wf(),
            s.0@ == Seq::<(i32, i32)>::empty(),
    {
        IntervalSet::new()
    }
}

/// The intervals of a set are determined by the integers they hold, so it does not matter in which
/// order intervals were added.
pub proof fn intervals_determined_by_coverage(s: Seq<(i32, i32)>, t: Seq<(i32, i32)>)
    requires
        intervals_wf(s),
        intervals_wf(t),
        forall|p: int| covers(s, p) == #[trigger] covers(t, p),
    ensures
        s == t,
    decreases s.len(),
{
    if s.len() == 0 {
        if t.len() > 0 {
            assert(t[0].0 <= t[0].0 < t[0].1);
            assert(covers(t, t[0].0 as int));
        }
    } else if t.len() == 0 {
        assert(s[0].0 <= s[0].0 < s[0].1);
        assert(covers(s, s[0].0 as int) == covers(t, s[0].0 as int));
    } else {
        let (a, b) = s.last();
        let (c, d) = t.last();
        lemma_last_bounds(s, t);
        lemma_last_bounds(t, s);
        assert((a, b) == (c, d));
        let (s1, t1) = (s.drop_last(), t.drop_last());
        assert forall|p: int| covers(s1, p) == #[trigger] covers(t1, p) by {
            lemma_covers_drop_last(s, p);
            lemma_covers_drop_last(t, p);
            assert(covers(s, p) == covers(t, p));
        }
        intervals_determined_by_coverage(s1, t1);
        assert(s =~= s1.push((a, b)));
        assert(t =~= t1.push((c, d)));
    }
}

proof fn lemma_joined(s: Seq<(i32, i32)>, lo: i32, hi: i32, r: Seq<(i32, i32)>)
    requires
        is_joined(s, lo, hi, r),
    ensures
        r == joined(s, lo, hi),
{
    let t = joined(s, lo, hi);
    assert(is_joined(s, lo, hi, t));
    assert forall|p: int| covers(r, p) == #[trigger] covers(t, p) by {
        assert(covers(r, p) <==> covers(s, p) || lo <= p < hi);
    }
    intervals_determined_by_coverage(r, t);
}

proof fn lemma_covers_drop_last(s: Seq<(i32, i32)>, p: int)
    requires
        intervals_wf(s),
        s.len() > 0,
    ensures
        covers(s.drop_last(), p) <==> covers(s, p) && p < s.last().0,
{
    let d = s.drop_last();
    if covers(d, p) {
        let i = choose|i: int| 0 <= i < d.len() && (#[trigger] d[i]).0 <= p < d[i].1;
        assert(s[i].0 <= p < s[i].1);
        assert(s[i].1 < s[s.len() - 1].0);
    }
    if covers(s, p) && p < s.last().0 {
        let i = choose|i: int| 0 <= i < s.len() && (#[trigger] s[i]).0 <= p < s[i].1;
        assert(d[i] == s[i]);
    }
}

/// The last interval of `t` neither starts nor ends after that of `s`, if `s` covers as much.
proof fn lemma_last_bounds(s: Seq<(i32, i32)>, t: Seq<(i32, i32)>)
    requires
        intervals_wf(s),
        intervals_wf(t),
        s.len() > 0,
        t.len() > 0,
        forall|p: int| covers(s, p) == #[trigger] covers(t, p),
    ensures
        t.last().1 <= s.last().1,
        s.last().1 <= t.last().1 ==> t.last().0 <= s.last().0,
{
    let (a, b) = s.last();
    let (c, d) = t.last();
    let n = s.len() - 1;
    let m = t.len() - 1;
    if d > b {
        let p = d - 1;
        assert(t[m].0 <= p < t[m].1);
        assert(covers(t, p));
        assert(covers(s, p));
        let i = choose|i: int| 0 <= i < s.len() && (#[trigger] s[i]).0 <= p < s[i].1;
        if i < n {
            assert(s[i].1 < s[n].0);
        }
        assert(s[n].0 < s[n].1);
    }
    if b <= d && c > a {
        let p = c - 1;
        assert(t[m].0 < t[m].1);
        assert(s[n].0 <= p < s[n].1 || p >= b);
        if p >= b {
            assert(covers(t, d - 1)) by {
                assert(t[m].0 <= d - 1 < t[m].1);
            }
            assert(covers(s, d - 1));
            let i = choose|i: int| 0 <= i < s.len() && (#[trigger] s[i]).0 <= d - 1 < s[i].1;
            if i < n {
                assert(s[i].1 < s[n].0);
            }
        } else {
            assert(covers(s, p));
            assert(covers(t, p));
            let j = choose|j: int| 0 <= j < t.len() && (#[trigger] t[j]).0 <= p < t[j].1;
            if j < m {
                assert(t[j].1 < t[m].0);
            }
        }
    }
}

/// Blocked intervals by tile: each tile once.
#[derive(Debug)]
pub struct BlockedMap(pub Vec<(Tile, IntervalSet)>);

/// Where a tile's intervals stand among the entries.
pub open spec fn entry_of(v: Seq<(Tile, IntervalSet)>, t: Tile, i: int) -> bool {
    0 <= i < v.len() && v[i].0 == t
}

impl BlockedMap {
    pub open spec fn wf(&self) -> bool {
        &&& forall|i: int| 0 <= i < self.0@.len() ==> (#[trigger] self.0@[i]).1.wf()
        &&& forall|i: int, j: int| 0 <= i < j < self.0@.len() ==> (#[trigger] self.0@[i]).0 != (#[trigger] self.0@[j]).0
    }

    /// The intervals of each blocked tile.
    pub open spec fn view(&self) -> Map<Tile, Seq<(i32, i32)>> {
        Map::new(
            |t: Tile| exists|i: int| entry_of(self.0@, t, i),
            |t: Tile| self.0@[choose|i: int| entry_of(self.0@, t, i)].1.0@,
        )
    }

    /// No blocked tile.
    pub fn new() -> (m: BlockedMap)
        ensures
            m.wf(),
            m@ == Map::<Tile, Seq<(i32, i32)>>::empty(),
    {
        let m = BlockedMap(Vec::new());
        assert(m@ =~= Map::<Tile, Seq<(i32, i32)>>::empty());
        m
    }

    proof fn lemma_entry(&self, i: int)
        requires
            self.wf(),
            0 <= i < self.0@.len(),
        ensures
            self@.dom().contains(self.0@[i].0),
            self@[self.0@[i].0] == self.0@[i].1.0@,
    {
        let t = self.0@[i].0;
        assert(entry_of(self.0@, t, i));
        let j = choose|j: int| entry_of(self.0@, t, j);
        if j < i {
            assert(self.0@[j].0 != self.0@[i].0);
        } else if i < j {
            assert(self.0@[i].0 != self.0@[j].0);
        }
    }

    /// Blocks `[lo, hi)` of a tile.
    pub fn add(&mut self, t: Tile, lo: i32, hi: i32)
        requires
            old(self).wf(),
        ensures
            final(self).wf(),
            final(self)@ == old(self)@.insert(t, joined(intervals_at(old(self)@, t), lo, hi)),
    {
        let n: usize = self.0.len();
        let mut i: usize = 0;
        while i < n
            invariant
                i <= n == self.0@.len(),
                self.wf(),
                *self == *old(self),
                forall|j: int| 0 <= j < i ==> (#[trigger] self.0@[j]).0 != t,
            decreases n - i,
        {
            if self.0[i].0.0 == t.0 && self.0[i].0.1 == t.1 && self.0[i].0.2 == t.2 {
                proof {
                    self.lemma_entry(i as int);
                }
                self.0[i].1.add(lo, hi);
                proof {
                    let (v, w) = (old(self).0@, self.0@);
                    assert(w.len() == v.len());
                    assert forall|j: int| 0 <= j < v.len() && j != i implies w[j] == v[j] by {}
                    assert(w[i as int].0 == t);
                    assert forall|a: int, b: int| 0 <= a < b < w.len() implies (#[trigger] w[a]).0 != (#[trigger] w[b]).0 by {
                        assert(v[a].0 != v[b].0);
                        assert(w[a].0 == v[a].0 && w[b].0 == v[b].0);
                    }
                    assert forall|a: int| 0 <= a < w.len() implies (#[trigger] w[a]).1.wf() by {
                        assert(v[a].1.wf());
                    }
                    let want = old(self)@.insert(t, joined(intervals_at(old(self)@, t), lo, hi));
                    assert forall|u: Tile| #[trigger] self@.dom().contains(u) == want.dom().contains(u) by {
                        if self@.dom().contains(u) {
                            let j = choose|j: int| entry_of(w, u, j);
                            assert(entry_of(v, u, j));
                        }
                        if want.dom().contains(u) {
                            if u == t {
                                assert(entry_of(w, u, i as int));
                            } else {
                                let j = choose|j: int| entry_of(v, u, j);
                                assert(entry_of(w, u, j));
                            }
                        }
                    }
                    assert forall|u: Tile| self@.dom().contains(u) implies self@[u] == want[u] by {
                        let j = choose|j: int| entry_of(w, u, j);
                        self.lemma_entry(j);
                        old(self).lemma_entry(j);
                    }
                    assert(self@ =~= want);
                }
                return;
            }
            i += 1;
        }
        let mut s = IntervalSet::new();
        s.add(lo, hi);
        self.0.push((t, s));
        proof {
            let (v, w) = (old(self).0@, self.0@);
            if old(self)@.dom().contains(t) {
                let j = choose|j: int| entry_of(v, t, j);
                assert(v[j].0 != t);
            }
            assert forall|a: int| 0 <= a < w.len() implies (#[trigger] w[a]).1.wf() by {
                if a < v.len() {
                    assert(v[a].1.wf());
                }
            }
            let want = old(self)@.insert(t, joined(intervals_at(old(self)@, t), lo, hi));
            assert forall|u: Tile| #[trigger] self@.dom().contains(u) == want.dom().contains(u) by {
                if self@.dom().contains(u) {
                    let j = choose|j: int| entry_of(w, u, j);
                    if j < v.len() {
                        assert(entry_of(v, u, j));
                    }
                }
                if want.dom().contains(u) {
                    if u == t {
                        assert(entry_of(w, u, n as int));
                    } else {
                        let j = choose|j: int| entry_of(v, u, j);
                        assert(entry_of(w, u, j));
                    }
                }
            }
            assert forall|u: Tile| self@.dom().contains(u) implies self@[u] == want[u] by {
                let j = choose|j: int| entry_of(w, u, j);
                self.lemma_entry(j);
                if j < v.len() {
                    old(self).lemma_entry(j);
                }
            }
            assert(self@ =~= want);
        }
    }
}

/// A tile's intervals: none where it is not blocked.
pub open spec fn intervals_at(m: Map<Tile, Seq<(i32, i32)>>, t: Tile) -> Seq<(i32, i32)> {
    if m.dom().contains(t) { m[t] } else { Seq::empty() }
}

/// The router's edges while capacities are adjusted, and the grid they are measured against.
#[derive(Debug)]
pub struct RouterEdges {
    pub die: Rect,
    pub tile_size: i32,
    pub x_grid: i32,
    pub y_grid: i32,
    pub num_layers: i32,
    /// Per layer `level - 1`.
    pub track_pitches: Vec<i32>,
    /// The 3D edges, flattened `(l * y_grid + y) * x_grid + x`.
    pub h3: Vec<EdgeState>,
    pub v3: Vec<EdgeState>,
    /// The 2D edges, `[y][x]`: horizontal `x < x_grid - 1`, vertical `y < y_grid - 1`.
    pub h2: Vec<EdgeState>,
    pub v2: Vec<EdgeState>,
    pub horizontal_blocked: BlockedMap,
    pub vertical_blocked: BlockedMap,
    pub verbose: bool,
    /// The underflow warnings, in order.
    pub log: Vec<String>,
}

/// The edges as maps. An edge is named by its direction (`true` for horizontal) and its first cell;
/// a 3D edge by its layer, counted from 0, as well.
#[verifier::ext_equal]
pub struct EdgesView {
    pub die: Rect,
    pub tile_size: int,
    pub x_grid: int,
    pub y_grid: int,
    pub num_layers: int,
    pub track_pitches: Seq<i32>,
    pub e3: Map<(bool, int, int, int), EdgeState>,
    pub e2: Map<(bool, int, int), EdgeState>,
    pub blocked: Map<(bool, Tile), Seq<(i32, i32)>>,
    pub verbose: bool,
    pub log: Seq<Seq<char>>,
}

/// Whether a 2D edge lies between two cells of the grid.
pub open spec fn real_edge(xg: int, yg: int, k: (bool, int, int)) -> bool {
    if k.0 { in_grid2(k.1, k.2, xg - 1, yg) } else { in_grid2(k.1, k.2, xg, yg - 1) }
}

/// The capacity that setting a 3D edge's capacity from `cap` to `reduced` takes away.
pub open spec fn lost(cap: u16, reduced: u16) -> int {
    if cap < reduced { 0 } else { cap - reduced }
}

/// A 3D edge whose capacity is set to `reduced`: what it lost goes to its reduction, and an increase
/// (`is_reduce` false) comes off it.
pub open spec fn edge3_after(e: EdgeState, reduced: u16, is_reduce: bool) -> EdgeState {
    EdgeState {
        cap: reduced,
        red: if is_reduce {
            (e.red + lost(e.cap, reduced)) as u16
        } else {
            nonneg(e.red - (reduced - e.cap)) as u16
        },
        real_cap: e.real_cap,
    }
}

/// A 2D edge with `cap_delta` added to its capacity, in 16 bits, and `red_delta` to its reduction,
/// which stops at 0.
pub open spec fn edge2_added(e: EdgeState, cap_delta: int, red_delta: int) -> EdgeState {
    EdgeState {
        cap: (e.cap + cap_delta) as u16,
        red: nonneg(e.red + red_delta) as u16,
        real_cap: e.real_cap,
    }
}

/// The 2D edge over a 3D edge whose capacity goes from `cap` to `reduced`.
pub open spec fn edge2_after(e: EdgeState, cap: u16, reduced: u16, is_reduce: bool) -> EdgeState {
    let d = lost(cap, reduced);
    let e1 = if is_reduce { e } else { edge2_added(e, reduced - cap, cap - reduced) };
    edge2_added(e1, -d, d)
}

pub open spec fn nonneg(v: int) -> int {
    if v < 0 { 0 } else { v }
}

/// The warning for a reduction that asks for more capacity than the edge has.
pub open spec fn underflow_text(horizontal: bool, cap: u16, reduced: u16) -> Seq<char> {
    "[WARNING GRT-0"@ + dec(if horizontal { 113 } else { 114 })
        + "] Underflow in reduce: cap, reducedCap: "@ + dec(cap as int) + ", "@ + dec(reduced as int)
}

/// One edge's capacity set to `reduced`: the 3D edge, the 2D edge over it where there is one, and
/// the warning of an underflow.
pub open spec fn adjusted(
    v: EdgesView, horizontal: bool, x: int, y: int, layer: int, reduced: u16, is_reduce: bool,
) -> EdgesView {
    let k3 = (horizontal, layer - 1, x, y);
    let k2 = (horizontal, x, y);
    let cap = v.e3[k3].cap;
    EdgesView {
        e3: v.e3.insert(k3, edge3_after(v.e3[k3], reduced, is_reduce)),
        e2: if real_edge(v.x_grid, v.y_grid, k2) {
            v.e2.insert(k2, edge2_after(v.e2[k2], cap, reduced, is_reduce))
        } else {
            v.e2
        },
        log: if cap < reduced && is_reduce && v.verbose {
            v.log.push(underflow_text(horizontal, cap, reduced))
        } else {
            v.log
        },
        ..v
    }
}

impl RouterEdges {
    pub open spec fn wf(&self) -> bool {
        &&& self.x_grid >= 1
        &&& self.y_grid >= 1
        &&& self.num_layers >= 0
        &&& self.num_layers * self.y_grid * self.x_grid <= i32::MAX
        &&& self.y_grid * self.x_grid <= i32::MAX
        &&& self.h3@.len() == self.num_layers * self.y_grid * self.x_grid
        &&& self.v3@.len() == self.num_layers * self.y_grid * self.x_grid
        &&& self.h2@.len() == self.y_grid * (self.x_grid - 1)
        &&& self.v2@.len() == (self.y_grid - 1) * self.x_grid
        &&& self.horizontal_blocked.wf()
        &&& self.vertical_blocked.wf()
        &&& forall|t: Tile| #[trigger] self.horizontal_blocked@.dom().contains(t) ==> self.holds_tile(t)
        &&& forall|t: Tile| #[trigger] self.vertical_blocked@.dom().contains(t) ==> self.holds_tile(t)
    }

    /// Whether a tile names a cell and a layer of the grid.
    pub open spec fn holds_tile(&self, t: Tile) -> bool {
        in_grid3(t.2 - 1, t.0 as int, t.1 as int, self.num_layers as int, self.x_grid as int, self.y_grid as int)
    }

    pub open spec fn view(&self) -> EdgesView {
        let (nl, xg, yg) = (self.num_layers as int, self.x_grid as int, self.y_grid as int);
        EdgesView {
            die: self.die,
            tile_size: self.tile_size as int,
            x_grid: xg,
            y_grid: yg,
            num_layers: nl,
            track_pitches: self.track_pitches@,
            e3: Map::new(
                |k: (bool, int, int, int)| in_grid3(k.1, k.2, k.3, nl, xg, yg),
                |k: (bool, int, int, int)| if k.0 {
                    self.h3@[at3(k.1, k.2, k.3, xg, yg)]
                } else {
                    self.v3@[at3(k.1, k.2, k.3, xg, yg)]
                },
            ),
            e2: Map::new(
                |k: (bool, int, int)| real_edge(xg, yg, k),
                |k: (bool, int, int)| if k.0 {
                    self.h2@[at2(k.1, k.2, xg - 1)]
                } else {
                    self.v2@[at2(k.1, k.2, xg)]
                },
            ),
            blocked: Map::new(
                |k: (bool, Tile)| if k.0 {
                    self.horizontal_blocked@.dom().contains(k.1)
                } else {
                    self.vertical_blocked@.dom().contains(k.1)
                },
                |k: (bool, Tile)| if k.0 {
                    self.horizontal_blocked@[k.1]
                } else {
                    self.vertical_blocked@[k.1]
                },
            ),
            verbose: self.verbose,
            log: texts(self.log@),
        }
    }

    fn i3(&self, l: i32, x: i32, y: i32) -> (i: usize)
        requires
            self.wf(),
            in_grid3(l as int, x as int, y as int, self.num_layers as int, self.x_grid as int, self.y_grid as int),
        ensures
            i == at3(l as int, x as int, y as int, self.x_grid as int, self.y_grid as int),
            i < self.h3@.len(),
            i < self.v3@.len(),
    {
        proof {
            lemma_at3(l as int, x as int, y as int, self.num_layers as int, self.x_grid as int, self.y_grid as int);
        }
        ((l * self.y_grid + y) * self.x_grid + x) as usize
    }

    /// The capacity of the 3D edge from the first cell to its neighbour.
    pub fn get_edge_capacity(&self, x1: i32, y1: i32, x2: i32, y2: i32, layer: i32) -> (cap: i32)
        requires
            self.wf(),
            self.holds_tile((x1, y1, layer)),
            x1 == x2 || y1 == y2,
        ensures
            cap == self@.e3[(y1 == y2, layer - 1, x1 as int, y1 as int)].cap,
    {
        let i: usize = self.i3(layer - 1, x1, y1);
        if y1 == y2 {
            self.h3[i].cap as i32
        } else {
            self.v3[i].cap as i32
        }
    }

    fn add_2d(e: EdgeState, cap_delta: i32, red_delta: i32) -> (r: EdgeState)
        requires
            -0xffff <= cap_delta <= 0xffff,
            -0xffff <= red_delta <= 0xffff,
        ensures
            r == edge2_added(e, cap_delta as int, red_delta as int),
    {
        EdgeState {
            cap: #[verifier::truncate] ((e.cap as i32 + cap_delta) as u16),
            red: #[verifier::truncate] ((e.red as i32 + red_delta).max(0) as u16),
            real_cap: e.real_cap,
        }
    }

    /// Sets the 3D edge's capacity to `reduced_cap` and carries the difference into its reduction
    /// and the 2D edge.
    ///
    /// The new capacity has 16 bits: a negative request arrives wrapped. The 2D edge is touched only
    /// for an edge inside the grid; the 3D edge is written regardless. A pair of cells that share
    /// neither a row nor a column is left alone.
    pub fn add_adjustment(&mut self, x1: i32, y1: i32, x2: i32, y2: i32, layer: i32, reduced_cap: u16, is_reduce: bool)
        requires
            old(self).wf(),
            x1 == x2 || y1 == y2 ==> old(self).holds_tile((x1, y1, layer)),
        ensures
            final(self).wf(),
            x1 != x2 && y1 != y2 ==> *final(self) == *old(self),
            x1 == x2 || y1 == y2 ==> final(self)@ == adjusted(
                old(self)@, y1 == y2, x1 as int, y1 as int, layer as int, reduced_cap, is_reduce,
            ),
    {
        let horizontal = y1 == y2;
        if !horizontal && x1 != x2 {
            return;
        }
        let ghost v0 = self@;
        let i: usize = self.i3(layer - 1, x1, y1);
        let e = if horizontal { self.h3[i] } else { self.v3[i] };
        let cap: i32 = e.cap as i32;
        let reduced: i32 = reduced_cap as i32;
        let reduce: i32 = if cap < reduced {
            if is_reduce && self.verbose {
                let mut s = String::from_str("[WARNING GRT-0");
                push_int(&mut s, if horizontal { 113 } else { 114 });
                s.append("] Underflow in reduce: cap, reducedCap: ");
                push_int(&mut s, cap as i64);
                s.append(", ");
                push_int(&mut s, reduced as i64);
                push_text(&mut self.log, s);
            }
            0
        } else {
            cap - reduced
        };
        let red: u16 = if is_reduce {
            #[verifier::truncate] ((e.red as i32 + reduce) as u16)
        } else {
            #[verifier::truncate] ((e.red as i32 - (reduced - cap)).max(0) as u16)
        };
        let e3 = EdgeState { cap: reduced_cap, red, real_cap: e.real_cap };
        assert(e3 == edge3_after(e, reduced_cap, is_reduce));
        let inside = if horizontal { x1 < self.x_grid - 1 } else { y1 < self.y_grid - 1 };
        proof {
            let (nl, xg, yg) = (self.num_layers as int, self.x_grid as int, self.y_grid as int);
            lemma_edges_set3(self.h3@, layer - 1, x1 as int, y1 as int, nl, xg, yg, e3);
            lemma_edges_set3(self.v3@, layer - 1, x1 as int, y1 as int, nl, xg, yg, e3);
        }
        if horizontal {
            self.h3[i] = e3;
        } else {
            self.v3[i] = e3;
        }
        if inside {
            let w: i32 = if horizontal { self.x_grid - 1 } else { self.x_grid };
            proof {
                let (xg, yg) = (self.x_grid as int, self.y_grid as int);
                if horizontal {
                    lemma_at2(x1 as int, y1 as int, xg - 1, yg);
                    assert(yg * (xg - 1) <= yg * xg) by (nonlinear_arith)
                        requires
                            yg >= 1,
                    ;
                } else {
                    lemma_at2(x1 as int, y1 as int, xg, yg - 1);
                    assert((yg - 1) * xg <= yg * xg) by (nonlinear_arith)
                        requires
                            xg >= 1,
                    ;
                }
            }
            let i2: usize = (y1 * w + x1) as usize;
            let a = if horizontal { self.h2[i2] } else { self.v2[i2] };
            let b = if is_reduce { a } else { Self::add_2d(a, reduced - cap, cap - reduced) };
            let c = Self::add_2d(b, -reduce, reduce);
            proof {
                let (xg, yg) = (self.x_grid as int, self.y_grid as int);
                if horizontal {
                    lemma_edges_set2(self.h2@, x1 as int, y1 as int, xg - 1, yg, c);
                } else {
                    lemma_edges_set2(self.v2@, x1 as int, y1 as int, xg, yg - 1, c);
                }
            }
            if horizontal {
                self.h2[i2] = c;
            } else {
                self.v2[i2] = c;
            }
        }
        proof {
            let want = adjusted(v0, horizontal, x1 as int, y1 as int, layer as int, reduced_cap, is_reduce);
            assert(self@.e3 =~= want.e3);
            assert(self@.e2 =~= want.e2);
            assert(self@.blocked =~= want.blocked);
            assert(self@.log =~= want.log);
            assert(self@ =~= want);
        }
    }
}

proof fn lemma_edges_set3(v: Seq<EdgeState>, l: int, x: int, y: int, nl: int, xg: int, yg: int, e: EdgeState)
    requires
        in_grid3(l, x, y, nl, xg, yg),
        v.len() == nl * yg * xg,
    ensures
        forall|a: int, b: int, c: int| in_grid3(a, b, c, nl, xg, yg) ==> v.update(at3(l, x, y, xg, yg), e)[
            #[trigger] at3(a, b, c, xg, yg)] == (if (a, b, c) == (l, x, y) { e } else { v[at3(a, b, c, xg, yg)] }),
{
    lemma_at3(l, x, y, nl, xg, yg);
    assert forall|a: int, b: int, c: int| in_grid3(a, b, c, nl, xg, yg) implies v.update(at3(l, x, y, xg, yg), e)[
        #[trigger] at3(a, b, c, xg, yg)] == (if (a, b, c) == (l, x, y) { e } else { v[at3(a, b, c, xg, yg)] }) by {
        lemma_at3(a, b, c, nl, xg, yg);
        if at3(a, b, c, xg, yg) == at3(l, x, y, xg, yg) {
            crate::grids::lemma_at3_injective(a, b, c, l, x, y, nl, xg, yg);
        }
    }
}

proof fn lemma_edges_set2(v: Seq<EdgeState>, x: int, y: int, w: int, h: int, e: EdgeState)
    requires
        in_grid2(x, y, w, h),
        v.len() == h * w,
    ensures
        forall|b: int, c: int| in_grid2(b, c, w, h) ==> v.update(at2(x, y, w), e)[#[trigger] at2(b, c, w)] == (if (
            b, c) == (x, y) { e } else { v[at2(b, c, w)] }),
{
    lemma_at2(x, y, w, h);
    assert forall|b: int, c: int| in_grid2(b, c, w, h) implies v.update(at2(x, y, w), e)[#[trigger] at2(b, c, w)]
        == (if (b, c) == (x, y) { e } else { v[at2(b, c, w)] }) by {
        lemma_at2(b, c, w, h);
        if at2(b, c, w) == at2(x, y, w) {
            crate::grids::lemma_at2_injective(b, c, x, y, w, h);
        }
    }
}

/// The cell holding a coordinate, counted from the die's edge, the last cell taking the die's far
/// side.
pub open spec fn cell_of(p: int, origin: int, tile: int, cells: int) -> int {
    let g = tdiv(p - origin, tile);
    if g >= cells { g - 1 } else { g }
}

/// The centre of a cell.
pub open spec fn centre_of(g: int, origin: int, tile: int) -> int {
    g * tile + tile / 2 + origin
}

/// The centre of the cell holding a point.
pub open spec fn position_on_grid(v: EdgesView, x: int, y: int) -> (int, int) {
    (
        centre_of(cell_of(x, v.die.x_min as int, v.tile_size, v.x_grid), v.die.x_min as int, v.tile_size),
        centre_of(cell_of(y, v.die.y_min as int, v.tile_size, v.y_grid), v.die.y_min as int, v.tile_size),
    )
}

/// Whether a coordinate's cell centre is computed within `i32`.
pub open spec fn centre_fits(p: int, origin: int, tile: int, cells: int) -> bool {
    let g = cell_of(p, origin, tile, cells);
    &&& fits(p - origin)
    &&& fits(g)
    &&& fits(g * tile)
    &&& fits(g * tile + tile / 2)
    &&& fits(centre_of(g, origin, tile))
}

/// Whether a point's cell centre is computed within `i32`.
pub open spec fn position_fits(v: EdgesView, x: int, y: int) -> bool {
    &&& v.tile_size > 0
    &&& centre_fits(x, v.die.x_min as int, v.tile_size, v.x_grid)
    &&& centre_fits(y, v.die.y_min as int, v.tile_size, v.y_grid)
}

/// The far side of a cell: the die's edge when less than a cell remains.
pub open spec fn far_side(side: int, die: int, tile: int) -> int {
    if tdiv(die - side, tile) < 1 { die } else { side }
}

/// The boxes of the first and last cells a rectangle touches, and the cells themselves.
pub open spec fn blocked_tiles(v: EdgesView, obs: Rect) -> ((int, int, int, int), (int, int, int, int), (int, int), (int, int)) {
    let t = v.tile_size;
    let (ox, oy) = (v.die.x_min as int, v.die.y_min as int);
    let lower = position_on_grid(v, obs.x_min as int, obs.y_min as int);
    let upper = position_on_grid(v, obs.x_max as int, obs.y_max as int);
    (
        (lower.0 - t / 2, lower.1 - t / 2, lower.0 + t / 2, lower.1 + t / 2),
        (
            upper.0 - t / 2,
            upper.1 - t / 2,
            far_side(upper.0 + t / 2, v.die.x_max as int, t),
            far_side(upper.1 + t / 2, v.die.y_max as int, t),
        ),
        (tdiv(lower.0 - ox, t), tdiv(lower.1 - oy, t)),
        (tdiv(upper.0 - ox, t), tdiv(upper.1 - oy, t)),
    )
}

/// A rectangle as four integers.
pub open spec fn sides(r: Rect) -> (int, int, int, int) {
    (r.x_min as int, r.y_min as int, r.x_max as int, r.y_max as int)
}

/// Whether [`blocked_tiles`] is computed within `i32`.
pub open spec fn blocked_tiles_fit(v: EdgesView, obs: Rect) -> bool {
    let t = v.tile_size;
    let (ox, oy) = (v.die.x_min as int, v.die.y_min as int);
    let lower = position_on_grid(v, obs.x_min as int, obs.y_min as int);
    let upper = position_on_grid(v, obs.x_max as int, obs.y_max as int);
    &&& position_fits(v, obs.x_min as int, obs.y_min as int)
    &&& position_fits(v, obs.x_max as int, obs.y_max as int)
    &&& fits(lower.0 - ox) && fits(lower.1 - oy) && fits(upper.0 - ox) && fits(upper.1 - oy)
    &&& fits(lower.0 - t / 2) && fits(lower.1 - t / 2) && fits(upper.0 - t / 2) && fits(upper.1 - t / 2)
    &&& fits(lower.0 + t / 2) && fits(lower.1 + t / 2) && fits(upper.0 + t / 2) && fits(upper.1 + t / 2)
    &&& fits(v.die.x_max - (upper.0 + t / 2)) && fits(v.die.y_max - (upper.1 + t / 2))
}

impl RouterEdges {
    /// The centre of the cell holding the point, the last cell clamped.
    pub fn get_position_on_grid(&self, x: i32, y: i32) -> (r: (i32, i32))
        requires
            position_fits(self@, x as int, y as int),
        ensures
            (r.0 as int, r.1 as int) == position_on_grid(self@, x as int, y as int),
    {
        let mut gx: i32 = (x - self.die.x_min) / self.tile_size;
        let mut gy: i32 = (y - self.die.y_min) / self.tile_size;
        proof {
            lemma_tdiv_range(x - self.die.x_min, self.tile_size as int);
            lemma_tdiv_range(y - self.die.y_min, self.tile_size as int);
        }
        if gx >= self.x_grid {
            gx -= 1;
        }
        if gy >= self.y_grid {
            gy -= 1;
        }
        (
            gx * self.tile_size + self.tile_size / 2 + self.die.x_min,
            gy * self.tile_size + self.tile_size / 2 + self.die.y_min,
        )
    }

    /// The boxes of the first and last cells a rectangle touches, and the cells themselves. The last
    /// cell's box reaches the die's edge when less than a cell remains.
    pub fn get_blocked_tiles(&self, obs: Rect) -> (r: (Rect, Rect, (i32, i32), (i32, i32)))
        requires
            blocked_tiles_fit(self@, obs),
        ensures
            (
                sides(r.0), sides(r.1), (r.2.0 as int, r.2.1 as int), (r.3.0 as int, r.3.1 as int),
            ) == blocked_tiles(self@, obs),
    {
        let t: i32 = self.tile_size;
        let lower = self.get_position_on_grid(obs.x_min, obs.y_min);
        let upper = self.get_position_on_grid(obs.x_max, obs.y_max);
        let first = ((lower.0 - self.die.x_min) / t, (lower.1 - self.die.y_min) / t);
        let last = ((upper.0 - self.die.x_min) / t, (upper.1 - self.die.y_min) / t);
        let first_bds = Rect::new(lower.0 - t / 2, lower.1 - t / 2, lower.0 + t / 2, lower.1 + t / 2);
        let mut urx: i32 = upper.0 + t / 2;
        let mut ury: i32 = upper.1 + t / 2;
        if (self.die.x_max - urx) / t < 1 {
            urx = self.die.x_max;
        }
        if (self.die.y_max - ury) / t < 1 {
            ury = self.die.y_max;
        }
        let last_bds = Rect::new(upper.0 - t / 2, upper.1 - t / 2, urx, ury);
        (first_bds, last_bds, first, last)
    }
}

proof fn lemma_tdiv_range(a: int, b: int)
    requires
        b > 0,
    ensures
        a >= 0 ==> 0 <= tdiv(a, b) <= a,
        a < 0 ==> a <= tdiv(a, b) <= 0,
{
    let m = if a >= 0 { a } else { -a };
    assert(0 <= m / b <= m) by (nonlinear_arith)
        requires
            b > 0,
            m >= 0,
    ;
}

/// The tracks of a pitch that a length blocks, in single precision: `ceil(len / pitch)`, saturated
/// to `i32`. Without a pitch a length blocks all there are.
pub open spec fn blocked_tracks(len: nat, pitch: int) -> int {
    if pitch > 0 {
        let n = single_quotient_ceil(len, pitch as nat);
        if n > i32::MAX { i32::MAX as int } else { n }
    } else if pitch == 0 {
        if len == 0 { 0 } else { i32::MAX as int }
    } else {
        let n = -single_quotient_floor(len, (-pitch) as nat);
        if n < i32::MIN { i32::MIN as int } else { n }
    }
}

fn blocked_tracks_of(len: u32, pitch: i32) -> (r: i32)
    ensures
        r == blocked_tracks(len as nat, pitch as int),
{
    if pitch > 0 {
        let n: u64 = quotient_ceil(len, pitch as u32);
        if n > i32::MAX as u64 { i32::MAX } else { n as i32 }
    } else if pitch == 0 {
        if len == 0 { 0 } else { i32::MAX }
    } else {
        let n: u64 = quotient_floor(len, (-(pitch as i64)) as u32);
        if n >= 0x8000_0000 { i32::MIN } else { (-(n as i64)) as i32 }
    }
}

/// The part of an edge tile's span that an obstruction covers, across the routing direction.
pub open spec fn covered_span(obs: Rect, tile: Rect, first: bool, vertical: bool) -> (int, int) {
    let (lo, hi, tlo, thi) = if vertical {
        (obs.x_min, obs.x_max, tile.x_min, tile.x_max)
    } else {
        (obs.y_min, obs.y_max, tile.y_min, tile.y_max)
    };
    if lo >= tlo && hi <= thi {
        (lo as int, hi as int)
    } else if first {
        (lo as int, thi as int)
    } else {
        (tlo as int, hi as int)
    }
}

pub open spec fn abs(v: int) -> nat {
    if v < 0 { (-v) as nat } else { v as nat }
}

/// The interval an edge tile loses: the covered span, one pitch wider for a macro that would leave
/// exactly one track.
pub open spec fn tile_reduce_interval(
    obs: Rect, tile: Rect, track_space: int, first: bool, vertical: bool, layer_cap: int, is_macro: bool,
) -> (int, int) {
    let (lo, hi) = covered_span(obs, tile, first, vertical);
    if is_macro && layer_cap - blocked_tracks(abs(hi - lo), track_space) == 1 {
        (lo, hi + track_space)
    } else {
        (lo, hi)
    }
}

/// Whether [`tile_reduce_interval`] is computed within `i32`.
pub open spec fn tile_reduce_fits(
    obs: Rect, tile: Rect, track_space: int, first: bool, vertical: bool, layer_cap: int, is_macro: bool,
) -> bool {
    let (lo, hi) = covered_span(obs, tile, first, vertical);
    let r = tile_reduce_interval(obs, tile, track_space, first, vertical, layer_cap, is_macro);
    &&& fits(hi - lo) && hi - lo > i32::MIN
    &&& is_macro ==> fits(layer_cap - blocked_tracks(abs(hi - lo), track_space))
    &&& fits(r.1)
}

/// The part of an edge tile's span the obstruction covers, across the layer's routing direction.
///
/// For a macro, when blocking leaves exactly one track, the interval is widened by one more pitch.
pub fn compute_tile_reduce_interval(
    obs: Rect,
    tile: Rect,
    track_space: i32,
    first: bool,
    direction: Option<Direction>,
    layer_cap: i32,
    is_macro: bool,
) -> (r: (i32, i32))
    requires
        tile_reduce_fits(obs, tile, track_space as int, first, direction == Some(Direction::Vertical), layer_cap as int, is_macro),
    ensures
        (r.0 as int, r.1 as int) == tile_reduce_interval(
            obs, tile, track_space as int, first, direction == Some(Direction::Vertical), layer_cap as int, is_macro,
        ),
{
    let vertical = is_vertical(direction);
    let (lo, hi, tlo, thi) = if vertical {
        (obs.x_min, obs.x_max, tile.x_min, tile.x_max)
    } else {
        (obs.y_min, obs.y_max, tile.y_min, tile.y_max)
    };
    let (start_point, end_point) = if lo >= tlo && hi <= thi {
        (lo, hi)
    } else if first {
        (lo, thi)
    } else {
        (tlo, hi)
    };
    if is_macro {
        let d: i32 = end_point - start_point;
        let len: u32 = if d < 0 { (-d) as u32 } else { d as u32 };
        if layer_cap - blocked_tracks_of(len, track_space) == 1 {
            return (start_point, end_point + track_space);
        }
    }
    (start_point, end_point)
}

fn is_vertical(d: Option<Direction>) -> (b: bool)
    ensures
        b == (d == Some(Direction::Vertical)),
{
    match d {
        Some(Direction::Vertical) => true,
        _ => false,
    }
}

/// Whether two rectangles share more than their sides.
pub open spec fn overlaps(a: Rect, b: Rect) -> bool {
    a.x_max > b.x_min && a.x_min < b.x_max && a.y_max > b.y_min && a.y_min < b.y_max
}

/// The part of an obstruction inside the die. One that does not overlap the die is not skipped: it
/// becomes the empty rectangle at the origin.
pub open spec fn clipped(die: Rect, obs: Rect) -> Rect {
    if overlaps(obs, die) {
        Rect {
            x_min: if die.x_min >= obs.x_min { die.x_min } else { obs.x_min },
            y_min: if die.y_min >= obs.y_min { die.y_min } else { obs.y_min },
            x_max: if die.x_max <= obs.x_max { die.x_max } else { obs.x_max },
            y_max: if die.y_max <= obs.y_max { die.y_max } else { obs.y_max },
        }
    } else {
        Rect { x_min: 0, y_min: 0, x_max: 0, y_max: 0 }
    }
}

/// Whether an obstruction has nothing to block once clipped.
pub open spec fn clipped_away(die: Rect, obs: Rect) -> bool {
    let r = clipped(die, obs);
    r.x_min > r.x_max || r.y_min > r.y_max
}

/// Whether a cell's edge lies in the span of cells from `first` to `last`: the last cell is left out
/// along the routing direction and counts across it.
pub open spec fn in_span(horizontal: bool, first: (int, int), last: (int, int), x: int, y: int) -> bool {
    if horizontal {
        first.0 <= x < last.0 && first.1 <= y <= last.1
    } else {
        first.0 <= x <= last.0 && first.1 <= y < last.1
    }
}

/// Which interval a cell of the span collects: that of the first row across the routing direction,
/// that of the last, or none for a cell strictly between.
pub open spec fn edge_interval(
    horizontal: bool, first: (int, int), last: (int, int), fi: (i32, i32), li: (i32, i32), x: int, y: int,
) -> Option<(i32, i32)> {
    let (c, f, l) = if horizontal { (y, first.1, last.1) } else { (x, first.0, last.0) };
    if c == f {
        Some(fi)
    } else if c == l {
        Some(li)
    } else {
        None
    }
}

/// The cells of `sel` blocked: those at the span's sides collect an interval, those between lose
/// their edge's capacity.
pub open spec fn span_blocked(
    v: EdgesView, horizontal: bool, first: (int, int), last: (int, int), layer: int, fi: (i32, i32), li: (i32, i32),
    sel: spec_fn(int, int) -> bool,
) -> EdgesView {
    let side = |x: int, y: int| edge_interval(horizontal, first, last, fi, li, x, y);
    EdgesView {
        e3: Map::new(
            |k: (bool, int, int, int)| v.e3.dom().contains(k),
            |k: (bool, int, int, int)|
                if k.0 == horizontal && k.1 == layer - 1 && sel(k.2, k.3) && side(k.2, k.3) is None {
                    edge3_after(v.e3[k], 0, true)
                } else {
                    v.e3[k]
                },
        ),
        e2: Map::new(
            |k: (bool, int, int)| v.e2.dom().contains(k),
            |k: (bool, int, int)|
                if k.0 == horizontal && sel(k.1, k.2) && side(k.1, k.2) is None {
                    edge2_after(v.e2[k], v.e3[(horizontal, layer - 1, k.1, k.2)].cap, 0, true)
                } else {
                    v.e2[k]
                },
        ),
        blocked: Map::new(
            |k: (bool, Tile)| v.blocked.dom().contains(k) || (k.0 == horizontal && k.1.2 == layer
                && sel(k.1.0 as int, k.1.1 as int) && side(k.1.0 as int, k.1.1 as int) is Some),
            |k: (bool, Tile)|
                if k.0 == horizontal && k.1.2 == layer && sel(k.1.0 as int, k.1.1 as int)
                    && side(k.1.0 as int, k.1.1 as int) is Some {
                    let i = side(k.1.0 as int, k.1.1 as int)->0;
                    joined(blocked_at(v, k), i.0, i.1)
                } else {
                    v.blocked[k]
                },
        ),
        ..v
    }
}

/// The intervals blocked of a tile in one direction.
pub open spec fn blocked_at(v: EdgesView, k: (bool, Tile)) -> Seq<(i32, i32)> {
    if v.blocked.dom().contains(k) { v.blocked[k] } else { Seq::empty() }
}

/// What an obstruction blocks on one layer.
pub open spec fn obstructed(v: EdgesView, obstruction: Rect, layer: int, vertical: bool, is_macro: bool) -> EdgesView {
    let rect = clipped(v.die, obstruction);
    let (first, last, fi, li) = obstruction_span(v, obstruction, layer, vertical, is_macro);
    if clipped_away(v.die, obstruction) {
        v
    } else {
        span_blocked(
            v, !vertical, first, last, layer, (fi.0 as i32, fi.1 as i32), (li.0 as i32, li.1 as i32),
            |x: int, y: int| in_span(!vertical, first, last, x, y),
        )
    }
}

/// The cells an obstruction spans and the intervals it blocks at their sides. An obstruction inside
/// one cell along the routing direction blocks the edge to the next cell, when there is one.
pub open spec fn obstruction_span(
    v: EdgesView, obstruction: Rect, layer: int, vertical: bool, is_macro: bool,
) -> ((int, int), (int, int), (int, int), (int, int)) {
    let rect = clipped(v.die, obstruction);
    let (fb, lb, first, last) = blocked_tiles(v, rect);
    let pitch = v.track_pitches[layer - 1] as int;
    let fcap = v.e3[(!vertical, layer - 1, first.0, first.1)].cap as int;
    let lcap = v.e3[(!vertical, layer - 1, last.0, last.1)].cap as int;
    let fi = tile_reduce_interval(rect, rect_of(fb), pitch, true, vertical, fcap, is_macro);
    let li = tile_reduce_interval(rect, rect_of(lb), pitch, false, vertical, lcap, is_macro);
    let last2 = if vertical {
        (last.0, if first.1 == last.1 && last.1 + 1 < v.y_grid { last.1 + 1 } else { last.1 })
    } else {
        (if first.0 == last.0 && last.0 + 1 < v.x_grid { last.0 + 1 } else { last.0 }, last.1)
    };
    (first, last2, fi, li)
}

/// The rectangle of four sides that are machine integers.
pub open spec fn rect_of(s: (int, int, int, int)) -> Rect {
    Rect { x_min: s.0 as i32, y_min: s.1 as i32, x_max: s.2 as i32, y_max: s.3 as i32 }
}

/// Whether an obstruction's cells lie in the grid and its intervals within `i32`.
pub open spec fn obstruction_fits(v: EdgesView, obstruction: Rect, layer: int, vertical: bool, is_macro: bool) -> bool {
    let rect = clipped(v.die, obstruction);
    let (fb, lb, first, last) = blocked_tiles(v, rect);
    let pitch = v.track_pitches[layer - 1] as int;
    clipped_away(v.die, obstruction) || {
        &&& 1 <= layer <= v.num_layers
        &&& layer <= v.track_pitches.len()
        &&& blocked_tiles_fit(v, rect)
        &&& in_grid2(first.0, first.1, v.x_grid, v.y_grid)
        &&& in_grid2(last.0, last.1, v.x_grid, v.y_grid)
        &&& tile_reduce_fits(rect, rect_of(fb), pitch, true, vertical, v.e3[(!vertical, layer - 1, first.0, first.1)].cap as int, is_macro)
        &&& tile_reduce_fits(rect, rect_of(lb), pitch, false, vertical, v.e3[(!vertical, layer - 1, last.0, last.1)].cap as int, is_macro)
    }
}

/// Blocks what an obstruction covers on one layer.
///
/// Tiles at the obstruction's sides collect blocked intervals, reduced later by
/// [`init_blocked_intervals`]; tiles strictly between them are blocked outright.
pub fn apply_obstruction_adjustment(
    e: &mut RouterEdges,
    obstruction: Rect,
    layer: i32,
    direction: Option<Direction>,
    is_macro: bool,
)
    requires
        old(e).wf(),
        obstruction_fits(old(e)@, obstruction, layer as int, direction == Some(Direction::Vertical), is_macro),
    ensures
        final(e).wf(),
        final(e)@ == obstructed(old(e)@, obstruction, layer as int, direction == Some(Direction::Vertical), is_macro),
{
    let die = e.die;
    let over = obstruction.x_max > die.x_min && obstruction.x_min < die.x_max && obstruction.y_max > die.y_min
        && obstruction.y_min < die.y_max;
    let rect = if over {
        let r = Rect::new(
            die.x_min.max(obstruction.x_min),
            die.y_min.max(obstruction.y_min),
            die.x_max.min(obstruction.x_max),
            die.y_max.min(obstruction.y_max),
        );
        if r.x_min > r.x_max || r.y_min > r.y_max {
            return;
        }
        r
    } else {
        Rect::new(0, 0, 0, 0)
    };
    assert(rect == clipped(die, obstruction));
    let (first_box, last_box, first, last0) = e.get_blocked_tiles(rect);
    let mut last = last0;
    proof {
        let b = blocked_tiles(e@, rect);
        assert(rect_of(b.0) == first_box);
        assert(rect_of(b.1) == last_box);
    }
    let vertical = is_vertical(direction);
    let track_space: i32 = e.track_pitches[(layer - 1) as usize];
    let (dx, dy): (i32, i32) = if vertical { (0, 1) } else { (1, 0) };
    let first_cap: i32 = e.get_edge_capacity(first.0, first.1, first.0 + dx, first.1 + dy, layer);
    let last_cap: i32 = e.get_edge_capacity(last.0, last.1, last.0 + dx, last.1 + dy, layer);
    let fi = compute_tile_reduce_interval(rect, first_box, track_space, true, direction, first_cap, is_macro);
    let li = compute_tile_reduce_interval(rect, last_box, track_space, false, direction, last_cap, is_macro);
    if !vertical {
        if first.0 == last.0 && last.0 + 1 < e.x_grid {
            last.0 = last.0 + 1;
        }
        add_horizontal_adjustments(e, first, last, layer, fi, li);
    } else {
        if first.1 == last.1 && last.1 + 1 < e.y_grid {
            last.1 = last.1 + 1;
        }
        add_vertical_adjustments(e, first, last, layer, fi, li);
    }
}

/// The span's cells visited before `(cx, cy)`, column by column.
pub open spec fn before_cell(horizontal: bool, first: (int, int), last: (int, int), cx: int, cy: int) -> spec_fn(int, int) -> bool {
    |x: int, y: int| in_span(horizontal, first, last, x, y) && (x < cx || (x == cx && y < cy))
}

/// One more cell of a span blocked.
fn block_cell(e: &mut RouterEdges, horizontal: bool, x: i32, y: i32, layer: i32, interval: Option<(i32, i32)>)
    requires
        old(e).wf(),
        old(e).holds_tile((x, y, layer)),
        x < i32::MAX,
        y < i32::MAX,
    ensures
        final(e).wf(),
        interval is None ==> final(e)@ == adjusted(old(e)@, horizontal, x as int, y as int, layer as int, 0, true),
        interval matches Some(i) ==> final(e)@ == (EdgesView {
            blocked: old(e)@.blocked.insert(
                (horizontal, (x, y, layer)),
                joined(blocked_at(old(e)@, (horizontal, (x, y, layer))), i.0, i.1),
            ),
            ..old(e)@
        }),
{
    match interval {
        Some((lo, hi)) => {
            let ghost m = if horizontal { e.horizontal_blocked@ } else { e.vertical_blocked@ };
            if horizontal {
                e.horizontal_blocked.add((x, y, layer), lo, hi);
            } else {
                e.vertical_blocked.add((x, y, layer), lo, hi);
            }
            proof {
                let k = (horizontal, (x, y, layer));
                assert(intervals_at(m, (x, y, layer)) == blocked_at(old(e)@, k));
                assert(e@.blocked =~= old(e)@.blocked.insert(k, joined(blocked_at(old(e)@, k), lo, hi)));
                assert(e@.e3 =~= old(e)@.e3);
                assert(e@.e2 =~= old(e)@.e2);
            }
        },
        None => {
            if horizontal {
                e.add_adjustment(x, y, x + 1, y, layer, 0, true);
            } else {
                e.add_adjustment(x, y, x, y + 1, layer, 0, true);
            }
        },
    }
}

proof fn lemma_span_step(
    v: EdgesView, horizontal: bool, first: (int, int), last: (int, int), layer: i32, fi: (i32, i32), li: (i32, i32),
    s: spec_fn(int, int) -> bool, t: spec_fn(int, int) -> bool, x: i32, y: i32,
)
    requires
        !s(x as int, y as int),
        forall|a: int, b: int| #[trigger] t(a, b) == (s(a, b) || (a == x && b == y)),
        v.e3.dom().contains((horizontal, layer - 1, x as int, y as int)),
        forall|k: (bool, int, int)| #[trigger] v.e2.dom().contains(k) == real_edge(v.x_grid, v.y_grid, k),
    ensures
        ({
            let a = span_blocked(v, horizontal, first, last, layer as int, fi, li, s);
            let b = span_blocked(v, horizontal, first, last, layer as int, fi, li, t);
            match edge_interval(horizontal, first, last, fi, li, x as int, y as int) {
                None => b == adjusted(a, horizontal, x as int, y as int, layer as int, 0, true),
                Some(i) => b == (EdgesView {
                    blocked: a.blocked.insert(
                        (horizontal, (x, y, layer)),
                        joined(blocked_at(a, (horizontal, (x, y, layer))), i.0, i.1),
                    ),
                    ..a
                }),
            }
        }),
{
    let a = span_blocked(v, horizontal, first, last, layer as int, fi, li, s);
    let b = span_blocked(v, horizontal, first, last, layer as int, fi, li, t);
    match edge_interval(horizontal, first, last, fi, li, x as int, y as int) {
        None => {
            let c = adjusted(a, horizontal, x as int, y as int, layer as int, 0, true);
            assert(c.e3 =~= b.e3);
            assert(c.e2 =~= b.e2);
            assert(c.blocked =~= b.blocked);
            assert(c.log =~= b.log);
        },
        Some(i) => {
            let k = (horizontal, (x, y, layer));
            assert(blocked_at(a, k) == blocked_at(v, k));
            assert(a.blocked.insert(k, joined(blocked_at(a, k), i.0, i.1)) =~= b.blocked);
            assert(a.e3 =~= b.e3);
            assert(a.e2 =~= b.e2);
        },
    }
}

proof fn lemma_span_same(
    v: EdgesView, horizontal: bool, first: (int, int), last: (int, int), layer: int, fi: (i32, i32), li: (i32, i32),
    s: spec_fn(int, int) -> bool, t: spec_fn(int, int) -> bool,
)
    requires
        forall|a: int, b: int| #[trigger] t(a, b) == s(a, b),
    ensures
        span_blocked(v, horizontal, first, last, layer, fi, li, s) == span_blocked(v, horizontal, first, last, layer, fi, li, t),
{
    let a = span_blocked(v, horizontal, first, last, layer, fi, li, s);
    let b = span_blocked(v, horizontal, first, last, layer, fi, li, t);
    assert(s =~= t);
    assert(a =~= b);
}

proof fn lemma_span_none(
    v: EdgesView, horizontal: bool, first: (int, int), last: (int, int), layer: int, fi: (i32, i32), li: (i32, i32),
    s: spec_fn(int, int) -> bool,
)
    requires
        forall|a: int, b: int| !(#[trigger] s(a, b)),
    ensures
        span_blocked(v, horizontal, first, last, layer, fi, li, s) == v,
{
    let a = span_blocked(v, horizontal, first, last, layer, fi, li, s);
    assert(a.e3 =~= v.e3);
    assert(a.e2 =~= v.e2);
    assert(a.blocked =~= v.blocked);
}

/// `x` from `first` up to `last`, `y` from `first` through `last`.
fn add_horizontal_adjustments(e: &mut RouterEdges, first: (i32, i32), last: (i32, i32), layer: i32, fi: (i32, i32), li: (i32, i32))
    requires
        old(e).wf(),
        1 <= layer <= old(e).num_layers,
        in_grid2(first.0 as int, first.1 as int, old(e).x_grid as int, old(e).y_grid as int),
        in_grid2(last.0 as int, last.1 as int, old(e).x_grid as int, old(e).y_grid as int),
    ensures
        final(e).wf(),
        final(e)@ == span_blocked(
            old(e)@, true, ints(first), ints(last), layer as int, fi, li,
            |x: int, y: int| in_span(true, ints(first), ints(last), x, y),
        ),
{
    let ghost v = e@;
    let ghost (f, l) = (ints(first), ints(last));
    let mut x: i32 = first.0;
    proof {
        lemma_span_none(v, true, f, l, layer as int, fi, li, before_cell(true, f, l, f.0, f.1));
    }
    while x < last.0
        invariant
            e.wf(),
            e.x_grid == v.x_grid,
            e.y_grid == v.y_grid,
            e.num_layers == v.num_layers,
            v == old(e)@,
            old(e).wf(),
            (f, l) == (ints(first), ints(last)),
            1 <= layer <= v.num_layers,
            in_grid2(f.0, f.1, v.x_grid, v.y_grid),
            in_grid2(l.0, l.1, v.x_grid, v.y_grid),
            first.0 <= x,
            x <= last.0 || x == first.0,
            e@ == span_blocked(v, true, f, l, layer as int, fi, li, before_cell(true, f, l, x as int, f.1)),
        decreases last.0 - x,
    {
        let mut y: i32 = first.1;
        while y <= last.1
            invariant
                e.wf(),
                e.x_grid == v.x_grid,
                e.y_grid == v.y_grid,
                e.num_layers == v.num_layers,
                v == old(e)@,
                old(e).wf(),
                (f, l) == (ints(first), ints(last)),
                1 <= layer <= v.num_layers,
                in_grid2(f.0, f.1, v.x_grid, v.y_grid),
                in_grid2(l.0, l.1, v.x_grid, v.y_grid),
                first.0 <= x < last.0,
                first.1 <= y,
                y <= last.1 + 1 || y == first.1,
                e@ == span_blocked(v, true, f, l, layer as int, fi, li, before_cell(true, f, l, x as int, y as int)),
            decreases last.1 + 1 - y,
        {
            let interval = if y == first.1 { Some(fi) } else if y == last.1 { Some(li) } else { None };
            proof {
                lemma_span_step(
                    v, true, f, l, layer, fi, li, before_cell(true, f, l, x as int, y as int),
                    before_cell(true, f, l, x as int, y + 1), x, y,
                );
            }
            block_cell(e, true, x, y, layer, interval);
            y += 1;
        }
        proof {
            lemma_span_same(
                v, true, f, l, layer as int, fi, li, before_cell(true, f, l, x as int, y as int),
                before_cell(true, f, l, x + 1, f.1),
            );
        }
        x += 1;
    }
    proof {
        lemma_span_same(
            v, true, f, l, layer as int, fi, li, before_cell(true, f, l, x as int, f.1),
            |x: int, y: int| in_span(true, f, l, x, y),
        );
    }
}

/// `x` from `first` through `last`, `y` from `first` up to `last`.
fn add_vertical_adjustments(e: &mut RouterEdges, first: (i32, i32), last: (i32, i32), layer: i32, fi: (i32, i32), li: (i32, i32))
    requires
        old(e).wf(),
        1 <= layer <= old(e).num_layers,
        in_grid2(first.0 as int, first.1 as int, old(e).x_grid as int, old(e).y_grid as int),
        in_grid2(last.0 as int, last.1 as int, old(e).x_grid as int, old(e).y_grid as int),
    ensures
        final(e).wf(),
        final(e)@ == span_blocked(
            old(e)@, false, ints(first), ints(last), layer as int, fi, li,
            |x: int, y: int| in_span(false, ints(first), ints(last), x, y),
        ),
{
    let ghost v = e@;
    let ghost (f, l) = (ints(first), ints(last));
    let mut x: i32 = first.0;
    proof {
        lemma_span_none(v, false, f, l, layer as int, fi, li, before_cell(false, f, l, f.0, f.1));
    }
    while x <= last.0
        invariant
            e.wf(),
            e.x_grid == v.x_grid,
            e.y_grid == v.y_grid,
            e.num_layers == v.num_layers,
            v == old(e)@,
            old(e).wf(),
            (f, l) == (ints(first), ints(last)),
            1 <= layer <= v.num_layers,
            in_grid2(f.0, f.1, v.x_grid, v.y_grid),
            in_grid2(l.0, l.1, v.x_grid, v.y_grid),
            first.0 <= x,
            x <= last.0 + 1 || x == first.0,
            e@ == span_blocked(v, false, f, l, layer as int, fi, li, before_cell(false, f, l, x as int, f.1)),
        decreases last.0 + 1 - x,
    {
        let mut y: i32 = first.1;
        while y < last.1
            invariant
                e.wf(),
                e.x_grid == v.x_grid,
                e.y_grid == v.y_grid,
                e.num_layers == v.num_layers,
                v == old(e)@,
                old(e).wf(),
                (f, l) == (ints(first), ints(last)),
                1 <= layer <= v.num_layers,
                in_grid2(f.0, f.1, v.x_grid, v.y_grid),
                in_grid2(l.0, l.1, v.x_grid, v.y_grid),
                first.0 <= x <= last.0,
                first.1 <= y,
                y <= last.1 || y == first.1,
                e@ == span_blocked(v, false, f, l, layer as int, fi, li, before_cell(false, f, l, x as int, y as int)),
            decreases last.1 - y,
        {
            let interval = if x == first.0 { Some(fi) } else if x == last.0 { Some(li) } else { None };
            proof {
                lemma_span_step(
                    v, false, f, l, layer, fi, li, before_cell(false, f, l, x as int, y as int),
                    before_cell(false, f, l, x as int, y + 1), x, y,
                );
            }
            block_cell(e, false, x, y, layer, interval);
            y += 1;
        }
        proof {
            lemma_span_same(
                v, false, f, l, layer as int, fi, li, before_cell(false, f, l, x as int, y as int),
                before_cell(false, f, l, x + 1, f.1),
            );
        }
        x += 1;
    }
    proof {
        lemma_span_same(
            v, false, f, l, layer as int, fi, li, before_cell(false, f, l, x as int, f.1),
            |x: int, y: int| in_span(false, f, l, x, y),
        );
    }
}

/// A pair of machine integers as integers.
pub open spec fn ints(p: (i32, i32)) -> (int, int) {
    (p.0 as int, p.1 as int)
}

/// The edges of `cells` given new capacities in order, each from the capacity it has by then.
pub open spec fn walked(
    v: EdgesView, cells: Seq<(int, int)>, horizontal: bool, layer: int, new_cap: spec_fn(int, int, u16) -> u16,
    is_reduce: bool,
) -> EdgesView
    decreases cells.len(),
{
    if cells.len() == 0 {
        v
    } else {
        let w = walked(v, cells.drop_last(), horizontal, layer, new_cap, is_reduce);
        let (x, y) = cells.last();
        adjusted(w, horizontal, x, y, layer, new_cap(x, y, w.e3[(horizontal, layer - 1, x, y)].cap), is_reduce)
    }
}

/// Half a capacity, at least 1 where there was any.
pub open spec fn halved(cap: u16) -> u16 {
    if cap == 1 { 1 } else { (cap / 2) as u16 }
}

/// Cells of machine integers as integers.
pub open spec fn int_cells(s: Seq<(i32, i32)>) -> Seq<(int, int)> {
    s.map_values(|p: (i32, i32)| (p.0 as int, p.1 as int))
}

/// Halves each tile's edge on a transition layer, leaving at least 1 where there was capacity.
pub fn adjust_tile_set(e: &mut RouterEdges, tiles: &[(i32, i32)], layer: i32, direction: Option<Direction>)
    requires
        old(e).wf(),
        forall|i: int| 0 <= i < tiles@.len() ==> #[trigger] old(e).holds_tile((tiles@[i].0, tiles@[i].1, layer)),
    ensures
        final(e).wf(),
        final(e)@ == walked(
            old(e)@, int_cells(tiles@), direction == Some(Direction::Horizontal), layer as int,
            |x: int, y: int, cap: u16| halved(cap), true,
        ),
{
    let ghost v = e@;
    let horizontal = match direction {
        Some(Direction::Horizontal) => true,
        _ => false,
    };
    let ghost half = |x: int, y: int, cap: u16| halved(cap);
    let ghost cells = int_cells(tiles@);
    let mut i: usize = 0;
    assert(cells.take(0) =~= Seq::empty());
    while i < tiles.len()
        invariant
            i <= tiles@.len(),
            cells == int_cells(tiles@),
            e.wf(),
            old(e).wf(),
            e.x_grid == old(e).x_grid && e.y_grid == old(e).y_grid && e.num_layers == old(e).num_layers,
            half == (|x: int, y: int, cap: u16| halved(cap)),
            forall|i: int| 0 <= i < tiles@.len() ==> #[trigger] old(e).holds_tile((tiles@[i].0, tiles@[i].1, layer)),
            e@ == walked(v, cells.take(i as int), horizontal, layer as int, half, true),
        decreases tiles@.len() - i,
    {
        let (x, y) = tiles[i];
        assert(old(e).holds_tile((tiles@[i as int].0, tiles@[i as int].1, layer)));
        let (ex, ey) = if horizontal { (x + 1, y) } else { (x, y + 1) };
        let cap: i32 = e.get_edge_capacity(x, y, ex, ey, layer);
        let mut new_cap: i32 = cap / 2;
        if cap > 0 {
            new_cap = new_cap.max(1);
        }
        proof {
            assert(cells.take(i + 1).drop_last() =~= cells.take(i as int));
            assert(cells.take(i + 1).last() == (x as int, y as int));
        }
        e.add_adjustment(x, y, ex, ey, layer, new_cap as u16, true);
        i += 1;
    }
    assert(cells.take(i as int) =~= cells);
}

/// The tracks that a blocked tile's edge loses: what its intervals cover, as far as it has capacity.
pub open spec fn tile_loss(v: EdgesView, k: (bool, Tile)) -> int {
    let cap = v.e3[(k.0, k.1.2 - 1, k.1.0 as int, k.1.1 as int)].cap as int;
    let layer = k.1.2;
    let n = if 0 < layer <= v.track_pitches.len() {
        track_count(v.blocked[k], v.track_pitches[layer - 1] as int)
    } else {
        0
    };
    if !v.blocked.dom().contains(k) {
        0
    } else if n < cap {
        n
    } else {
        cap
    }
}

/// The tracks that the blocked tiles over one 2D edge lose on its first `n` layers.
pub open spec fn column_loss(v: EdgesView, sel: spec_fn((bool, Tile)) -> bool, horizontal: bool, x: int, y: int, n: int) -> int
    decreases n,
{
    if n <= 0 {
        0
    } else {
        let k = (horizontal, (x as i32, y as i32, n as i32));
        column_loss(v, sel, horizontal, x, y, n - 1) + (if sel(k) { tile_loss(v, k) } else { 0 })
    }
}

/// The selected blocked tiles' edges reduced: each 3D edge by what its tile loses, each 2D edge by
/// what the tiles on all its layers lose.
pub open spec fn intervals_applied(v: EdgesView, sel: spec_fn((bool, Tile)) -> bool) -> EdgesView {
    EdgesView {
        e3: Map::new(
            |k: (bool, int, int, int)| v.e3.dom().contains(k),
            |k: (bool, int, int, int)| {
                let t = (k.0, (k.2 as i32, k.3 as i32, (k.1 + 1) as i32));
                if sel(t) {
                    edge3_after(v.e3[k], (v.e3[k].cap - tile_loss(v, t)) as u16, true)
                } else {
                    v.e3[k]
                }
            },
        ),
        e2: Map::new(
            |k: (bool, int, int)| v.e2.dom().contains(k),
            |k: (bool, int, int)| {
                let d = column_loss(v, sel, k.0, k.1, k.2, v.num_layers);
                EdgeState {
                    cap: (v.e2[k].cap - d) as u16,
                    red: (v.e2[k].red + d) as u16,
                    real_cap: v.e2[k].real_cap,
                }
            },
        ),
        ..v
    }
}

proof fn lemma_wrap(a: i64, r: i64)
    by (bit_vector)
    requires
        -0x1_0000_0000_0000_00i64 < a < 0x1_0000_0000_0000_00i64,
        0 <= r <= 0xffff,
    ensures
        ((a as u16) - r) as u16 == (a - r) as u16,
        ((a as u16) + r) as u16 == (a + r) as u16,
{
}

proof fn lemma_track_count(s: Seq<(i32, i32)>, t: int)
    requires
        intervals_wf(s),
    ensures
        track_count(s, t) >= 0,
{
    lemma_total_length(s);
    if t > 0 {
        let n = total_length(s) + t - 1;
        assert(n / t >= 0) by (nonlinear_arith)
            requires
                t > 0,
                n >= 0,
        ;
    }
}

proof fn lemma_total_length(s: Seq<(i32, i32)>)
    requires
        intervals_wf(s),
    ensures
        total_length(s) >= 0,
    decreases s.len(),
{
    if s.len() > 0 {
        let d = s.drop_last();
        assert forall|i: int| 0 <= i < d.len() implies (#[trigger] d[i]).0 < d[i].1 by {
            assert(s[i].0 < s[i].1);
        }
        assert forall|i: int, j: int| 0 <= i < j < d.len() implies (#[trigger] d[i]).1 < (#[trigger] d[j]).0 by {
            assert(s[i].1 < s[j].0);
        }
        lemma_total_length(d);
        assert(s[s.len() - 1].0 < s[s.len() - 1].1);
    }
}

/// Every blocked interval list of the view is well formed.
pub open spec fn view_blocked_wf(v: EdgesView) -> bool {
    forall|k: (bool, Tile)| v.blocked.dom().contains(k) ==> intervals_wf(#[trigger] v.blocked[k])
}

proof fn lemma_view_blocked_wf(e: RouterEdges)
    requires
        e.wf(),
    ensures
        view_blocked_wf(e@),
{
    assert forall|k: (bool, Tile)| e@.blocked.dom().contains(k) implies intervals_wf(#[trigger] e@.blocked[k]) by {
        let m = if k.0 { e.horizontal_blocked } else { e.vertical_blocked };
        assert(m@.dom().contains(k.1));
        let i = choose|i: int| entry_of(m.0@, k.1, i);
        assert(m.0@[i].1.wf());
    }
}

proof fn lemma_tile_loss(v: EdgesView, k: (bool, Tile))
    requires
        view_blocked_wf(v),
    ensures
        0 <= tile_loss(v, k) <= 0xffff,
        tile_loss(v, k) <= v.e3[(k.0, k.1.2 - 1, k.1.0 as int, k.1.1 as int)].cap,
{
    if v.blocked.dom().contains(k) && 0 < k.1.2 <= v.track_pitches.len() {
        lemma_track_count(v.blocked[k], v.track_pitches[k.1.2 - 1] as int);
    }
}

proof fn lemma_column_loss(
    v: EdgesView, s: spec_fn((bool, Tile)) -> bool, t: spec_fn((bool, Tile)) -> bool, k: (bool, Tile), x: int, y: int, n: int,
)
    requires
        view_blocked_wf(v),
        !s(k),
        forall|j: (bool, Tile)| #[trigger] t(j) == (s(j) || j == k),
        fits(x) && fits(y),
        0 <= n <= i32::MAX,
        k.1.2 >= 1,
    ensures
        0 <= column_loss(v, s, k.0, x, y, n) <= n * 0xffff,
        column_loss(v, t, k.0, x, y, n) == column_loss(v, s, k.0, x, y, n) + (if x == k.1.0 && y == k.1.1 && k.1.2 <= n {
            tile_loss(v, k)
        } else {
            0
        }),
    decreases n,
{
    if n > 0 {
        lemma_column_loss(v, s, t, k, x, y, n - 1);
        let j = (k.0, (x as i32, y as i32, n as i32));
        lemma_tile_loss(v, j);
        assert(t(j) == (s(j) || j == k));
    }
}

proof fn lemma_column_loss_same(
    v: EdgesView, s: spec_fn((bool, Tile)) -> bool, w: EdgesView, t: spec_fn((bool, Tile)) -> bool, horizontal: bool, x: int, y: int, n: int,
)
    requires
        forall|j: (bool, Tile)| j.0 == horizontal ==> #[trigger] t(j) == s(j) && (s(j) ==> tile_loss(v, j) == tile_loss(w, j)),
    ensures
        column_loss(v, s, horizontal, x, y, n) == column_loss(w, t, horizontal, x, y, n),
    decreases n,
{
    if n > 0 {
        lemma_column_loss_same(v, s, w, t, horizontal, x, y, n - 1);
        let j = (horizontal, (x as i32, y as i32, n as i32));
        assert(t(j) == s(j));
    }
}

proof fn lemma_column_loss_none(v: EdgesView, s: spec_fn((bool, Tile)) -> bool, horizontal: bool, x: int, y: int, n: int)
    requires
        forall|j: (bool, Tile)| j.0 == horizontal ==> !#[trigger] s(j),
    ensures
        column_loss(v, s, horizontal, x, y, n) == 0,
    decreases n,
{
    if n > 0 {
        lemma_column_loss_none(v, s, horizontal, x, y, n - 1);
        assert(!s((horizontal, (x as i32, y as i32, n as i32))));
    }
}

/// The shape of a view.
pub open spec fn view_wf(v: EdgesView) -> bool {
    &&& fits(v.x_grid) && fits(v.y_grid) && 0 <= v.num_layers <= i32::MAX
    &&& forall|k: (bool, int, int, int)| #[trigger] v.e3.dom().contains(k) == in_grid3(k.1, k.2, k.3, v.num_layers, v.x_grid, v.y_grid)
    &&& forall|k: (bool, int, int)| #[trigger] v.e2.dom().contains(k) == real_edge(v.x_grid, v.y_grid, k)
    &&& view_blocked_wf(v)
}

/// One more blocked tile reduced.
proof fn lemma_intervals_step(
    v: EdgesView, s: spec_fn((bool, Tile)) -> bool, t: spec_fn((bool, Tile)) -> bool, k: (bool, Tile),
)
    requires
        view_wf(v),
        !s(k),
        forall|j: (bool, Tile)| #[trigger] t(j) == (s(j) || j == k),
        v.e3.dom().contains((k.0, k.1.2 - 1, k.1.0 as int, k.1.1 as int)),
    ensures
        ({
            let a = intervals_applied(v, s);
            let b = intervals_applied(v, t);
            let cap = v.e3[(k.0, k.1.2 - 1, k.1.0 as int, k.1.1 as int)].cap;
            let new_cap = (cap - tile_loss(v, k)) as u16;
            &&& a.e3[(k.0, k.1.2 - 1, k.1.0 as int, k.1.1 as int)].cap == cap
            &&& b == adjusted(a, k.0, k.1.0 as int, k.1.1 as int, k.1.2 as int, new_cap, true)
            &&& cap == 0 ==> b == a
        }),
{
    let a = intervals_applied(v, s);
    let b = intervals_applied(v, t);
    let (x, y, layer) = (k.1.0 as int, k.1.1 as int, k.1.2 as int);
    let k3 = (k.0, layer - 1, x, y);
    lemma_tile_loss(v, k);
    let d = tile_loss(v, k);
    let new_cap = (v.e3[k3].cap - d) as u16;
    let c = adjusted(a, k.0, x, y, layer, new_cap, true);
    assert forall|j: (bool, int, int, int)| v.e3.dom().contains(j) implies #[trigger] b.e3[j] == c.e3[j] by {
        let tj = (j.0, (j.2 as i32, j.3 as i32, (j.1 + 1) as i32));
        assert(t(tj) == (s(tj) || tj == k));
        if j != k3 {
            assert(tj != k);
        }
    }
    assert(b.e3 =~= c.e3);
    assert forall|j: (bool, int, int)| v.e2.dom().contains(j) implies #[trigger] b.e2[j] == c.e2[j] && (d == 0 ==> b.e2[j] == a.e2[j]) by {
        assert(real_edge(v.x_grid, v.y_grid, j));
        let n = v.num_layers;
        if j.0 == k.0 {
            lemma_column_loss(v, s, t, k, j.1, j.2, n);
            let l = column_loss(v, s, j.0, j.1, j.2, n);
            if j == (k.0, x, y) {
                lemma_wrap((v.e2[j].cap - l) as i64, d as i64);
                lemma_wrap((v.e2[j].red + l) as i64, d as i64);
                assert(b.e2[j] == c.e2[j]);
            }
        } else {
            assert forall|i: (bool, Tile)| i.0 == j.0 implies #[trigger] t(i) == s(i) && (s(i) ==> tile_loss(v, i) == tile_loss(v, i)) by {}
            lemma_column_loss_same(v, s, v, t, j.0, j.1, j.2, n);
        }
    }
    assert(b.e2 =~= c.e2);
    assert(c.log =~= b.log);
    assert(b =~= c);
    if v.e3[k3].cap == 0 {
        assert forall|j: (bool, int, int, int)| v.e3.dom().contains(j) implies #[trigger] b.e3[j] == a.e3[j] by {
            let tj = (j.0, (j.2 as i32, j.3 as i32, (j.1 + 1) as i32));
            assert(t(tj) == (s(tj) || tj == k));
            if j == k3 {
                assert(tj == k);
            } else {
                assert(tj != k);
            }
        }
        assert(b.e3 =~= a.e3);
        assert(b.e2 =~= a.e2);
        assert(b =~= a);
    }
}

/// Whether one of the first `n` work items is the tile.
pub open spec fn among(work: Seq<(Tile, i32)>, n: int, t: Tile) -> bool {
    exists|i: int| 0 <= i < n && (#[trigger] work[i]).0 == t
}

/// Each blocked tile of one direction, with the tracks its intervals cover.
fn blocked_work(e: &RouterEdges, horizontal: bool) -> (work: Vec<(Tile, i32)>)
    requires
        e.wf(),
    ensures
        forall|i: int, j: int| 0 <= i < j < work@.len() ==> (#[trigger] work@[i]).0 != (#[trigger] work@[j]).0,
        forall|i: int| 0 <= i < work@.len() ==> {
            &&& e@.blocked.dom().contains((horizontal, (#[trigger] work@[i]).0))
            &&& e.holds_tile(work@[i].0)
            &&& work@[i].1 == (if 0 < work@[i].0.2 <= e.track_pitches@.len() {
                track_count(e@.blocked[(horizontal, work@[i].0)], e.track_pitches@[work@[i].0.2 - 1] as int)
            } else {
                0
            })
        },
        forall|t: Tile| #[trigger] e@.blocked.dom().contains((horizontal, t)) ==> among(work@, work@.len() as int, t),
{
    let m = if horizontal { &e.horizontal_blocked } else { &e.vertical_blocked };
    let mut work: Vec<(Tile, i32)> = Vec::new();
    let mut i: usize = 0;
    while i < m.0.len()
        invariant
            i <= m.0@.len(),
            e.wf(),
            m.wf(),
            *m == (if horizontal { e.horizontal_blocked } else { e.vertical_blocked }),
            work@.len() == i,
            forall|j: int| 0 <= j < i ==> {
                &&& (#[trigger] work@[j]).0 == m.0@[j].0
                &&& e@.blocked.dom().contains((horizontal, work@[j].0))
                &&& e.holds_tile(work@[j].0)
                &&& work@[j].1 == (if 0 < work@[j].0.2 <= e.track_pitches@.len() {
                    track_count(e@.blocked[(horizontal, work@[j].0)], e.track_pitches@[work@[j].0.2 - 1] as int)
                } else {
                    0
                })
            },
        decreases m.0@.len() - i,
    {
        let t = m.0[i].0;
        proof {
            m.lemma_entry(i as int);
            assert(m.0@[i as int].1.wf());
        }
        let n: i32 = if 0 < t.2 && (t.2 as usize) <= e.track_pitches.len() {
            m.0[i].1.blocked_track_count(e.track_pitches[(t.2 - 1) as usize])
        } else {
            0
        };
        work.push((t, n));
        i += 1;
    }
    proof {
        assert forall|a: int, b: int| 0 <= a < b < work@.len() implies (#[trigger] work@[a]).0 != (#[trigger] work@[b]).0 by {
            assert(m.0@[a].0 != m.0@[b].0);
        }
        assert forall|t: Tile| #[trigger] e@.blocked.dom().contains((horizontal, t)) implies among(work@, work@.len() as int, t) by {
            assert(m@.dom().contains(t));
            let j = choose|j: int| entry_of(m.0@, t, j);
            assert(work@[j].0 == t);
        }
    }
    work
}

/// Reduces the edges of the blocked tiles of one direction.
fn reduce_blocked(e: &mut RouterEdges, horizontal: bool)
    requires
        old(e).wf(),
    ensures
        final(e).wf(),
        final(e)@ == intervals_applied(old(e)@, |k: (bool, Tile)| k.0 == horizontal && old(e)@.blocked.dom().contains(k)),
{
    let work = blocked_work(e, horizontal);
    let ghost v = e@;
    let ghost sel = |n: int| |k: (bool, Tile)| k.0 == horizontal && among(work@, n, k.1);
    let mut i: usize = 0;
    proof {
        lemma_view_blocked_wf(*e);
        lemma_intervals_none(v, sel(0));
    }
    while i < work.len()
        invariant
            i <= work@.len(),
            e.wf(),
            old(e).wf(),
            v == old(e)@,
            view_wf(v),
            e.x_grid == v.x_grid && e.y_grid == v.y_grid && e.num_layers == v.num_layers,
            sel == (|n: int| |k: (bool, Tile)| k.0 == horizontal && among(work@, n, k.1)),
            forall|i: int, j: int| 0 <= i < j < work@.len() ==> (#[trigger] work@[i]).0 != (#[trigger] work@[j]).0,
            forall|i: int| 0 <= i < work@.len() ==> {
                &&& v.blocked.dom().contains((horizontal, (#[trigger] work@[i]).0))
                &&& old(e).holds_tile(work@[i].0)
                &&& work@[i].1 == (if 0 < work@[i].0.2 <= v.track_pitches.len() {
                    track_count(v.blocked[(horizontal, work@[i].0)], v.track_pitches[work@[i].0.2 - 1] as int)
                } else {
                    0
                })
            },
            e@ == intervals_applied(v, sel(i as int)),
        decreases work@.len() - i,
    {
        let ((x, y, layer), reduce) = work[i];
        let ghost k = (horizontal, (x, y, layer));
        proof {
            assert(old(e).holds_tile(work@[i as int].0));
            let (s, t) = (sel(i as int), sel(i + 1));
            assert forall|j: (bool, Tile)| #[trigger] t(j) == (s(j) || j == k) by {
                if j.0 == horizontal {
                    if among(work@, i + 1, j.1) {
                        let a = choose|a: int| 0 <= a < i + 1 && (#[trigger] work@[a]).0 == j.1;
                        if a < i {
                            assert(among(work@, i as int, j.1));
                        }
                    }
                    if among(work@, i as int, j.1) {
                        let a = choose|a: int| 0 <= a < i && (#[trigger] work@[a]).0 == j.1;
                        assert(among(work@, i + 1, j.1));
                    }
                    if j == k {
                        assert(work@[i as int].0 == j.1);
                        assert(among(work@, i + 1, j.1));
                    }
                }
            }
            assert(!s(k)) by {
                if s(k) {
                    let a = choose|a: int| 0 <= a < i && (#[trigger] work@[a]).0 == k.1;
                    assert(work@[a].0 != work@[i as int].0);
                }
            }
            lemma_intervals_step(v, s, t, k);
            lemma_tile_loss(v, k);
            if 0 < layer <= v.track_pitches.len() {
                lemma_track_count(v.blocked[k], v.track_pitches[layer - 1] as int);
            }
        }
        let (x2, y2) = if horizontal { (x + 1, y) } else { (x, y + 1) };
        let cap: i32 = e.get_edge_capacity(x, y, x2, y2, layer);
        if cap > 0 {
            let new_cap: i32 = if reduce < cap { cap - reduce } else { 0 };
            e.add_adjustment(x, y, x2, y2, layer, new_cap as u16, true);
        }
        i += 1;
    }
    proof {
        let all = |k: (bool, Tile)| k.0 == horizontal && v.blocked.dom().contains(k);
        let s = sel(i as int);
        assert forall|k: (bool, Tile)| #[trigger] s(k) == all(k) by {
            if s(k) {
                let a = choose|a: int| 0 <= a < i && (#[trigger] work@[a]).0 == k.1;
                assert(v.blocked.dom().contains((horizontal, work@[a].0)));
            }
            if all(k) {
                assert(v.blocked.dom().contains((horizontal, k.1)));
            }
        }
        assert(s =~= all);
    }
}

proof fn lemma_intervals_none(v: EdgesView, s: spec_fn((bool, Tile)) -> bool)
    requires
        forall|k: (bool, Tile)| !#[trigger] s(k),
    ensures
        intervals_applied(v, s) == v,
{
    let a = intervals_applied(v, s);
    assert forall|k: (bool, int, int)| v.e2.dom().contains(k) implies a.e2[k] == v.e2[k] by {
        lemma_column_loss_none(v, s, k.0, k.1, k.2, v.num_layers);
    }
    assert(a.e3 =~= v.e3);
    assert(a.e2 =~= v.e2);
}

/// Reduces each blocked tile's edge by the tracks its intervals cover, down to 0. The tiles are
/// independent of each other.
pub fn init_blocked_intervals(e: &mut RouterEdges)
    requires
        old(e).wf(),
    ensures
        final(e).wf(),
        final(e)@ == intervals_applied(old(e)@, |k: (bool, Tile)| old(e)@.blocked.dom().contains(k)),
{
    let ghost v = e@;
    reduce_blocked(e, false);
    let ghost w = e@;
    reduce_blocked(e, true);
    proof {
        let all = |k: (bool, Tile)| v.blocked.dom().contains(k);
        let ver = |k: (bool, Tile)| k.0 == false && v.blocked.dom().contains(k);
        let hor = |k: (bool, Tile)| k.0 == true && w.blocked.dom().contains(k);
        let want = intervals_applied(v, all);
        let x = intervals_applied(w, hor);
        assert forall|k: (bool, Tile)| k.0 && v.e3.dom().contains((k.0, k.1.2 - 1, k.1.0 as int, k.1.1 as int)) implies tile_loss(v, k) == #[trigger] tile_loss(w, k) by {}
        assert forall|k: (bool, int, int)| v.e2.dom().contains(k) implies #[trigger] x.e2[k] == want.e2[k] by {
            let n = v.num_layers;
            if k.0 {
                lemma_column_loss_none(v, ver, k.0, k.1, k.2, n);
                assert(w.e2[k] == v.e2[k]);
                assert forall|j: (bool, Tile)| j.0 == true implies #[trigger] hor(j) == all(j) && (all(j) ==> tile_loss(v, j) == tile_loss(w, j)) by {
                    if all(j) {
                        assert(old(e).holds_tile(j.1)) by {
                            assert(old(e).horizontal_blocked@.dom().contains(j.1));
                        }
                        assert(v.e3.dom().contains((j.0, j.1.2 - 1, j.1.0 as int, j.1.1 as int)));
                    }
                }
                lemma_column_loss_same(v, all, w, hor, k.0, k.1, k.2, n);
            } else {
                lemma_column_loss_none(w, hor, k.0, k.1, k.2, n);
                assert forall|j: (bool, Tile)| j.0 == false implies #[trigger] ver(j) == all(j) && (all(j) ==> tile_loss(v, j) == tile_loss(v, j)) by {}
                lemma_column_loss_same(v, all, v, ver, k.0, k.1, k.2, n);
            }
        }
        assert(x.e2 =~= want.e2);
        assert(x.e3 =~= want.e3);
        assert(x =~= want);
    }
}

/// An edge whose capacity is kept as its real capacity.
pub open spec fn saved(e: EdgeState) -> EdgeState {
    EdgeState { cap: e.cap, red: e.red, real_cap: e.cap }
}

/// Every edge inside the grid with its capacity kept as its real capacity.
pub open spec fn resources_saved(v: EdgesView) -> EdgesView {
    EdgesView {
        e3: Map::new(
            |k: (bool, int, int, int)| v.e3.dom().contains(k),
            |k: (bool, int, int, int)|
                if real_edge(v.x_grid, v.y_grid, (k.0, k.2, k.3)) {
                    saved(v.e3[k])
                } else {
                    v.e3[k]
                },
        ),
        e2: Map::new(|k: (bool, int, int)| v.e2.dom().contains(k), |k: (bool, int, int)| saved(v.e2[k])),
        ..v
    }
}

/// Keeps every entry's capacity as its real capacity.
fn save_all(v: &mut Vec<EdgeState>)
    ensures
        final(v)@ == old(v)@.map_values(|e: EdgeState| saved(e)),
{
    let ghost v0 = v@;
    let mut i: usize = 0;
    while i < v.len()
        invariant
            i <= v@.len() == v0.len(),
            forall|j: int| 0 <= j < v0.len() ==> #[trigger] v@[j] == (if j < i { saved(v0[j]) } else { v0[j] }),
        decreases v@.len() - i,
    {
        let e = v[i];
        v[i] = EdgeState { cap: e.cap, red: e.red, real_cap: e.cap };
        i += 1;
    }
    assert(v@ =~= v0.map_values(|e: EdgeState| saved(e)));
}

/// Keeps the capacity of every 3D entry whose edge lies inside the grid.
fn save_inside(v: &mut Vec<EdgeState>, horizontal: bool, nl: i32, xg: i32, yg: i32)
    requires
        xg >= 1,
        yg >= 1,
        nl >= 0,
        old(v)@.len() == nl * yg * xg,
        nl * yg * xg <= i32::MAX,
    ensures
        final(v)@.len() == old(v)@.len(),
        forall|l: int, x: int, y: int|
            in_grid3(l, x, y, nl as int, xg as int, yg as int) ==> final(v)@[#[trigger] at3(l, x, y, xg as int, yg as int)] == (
            if real_edge(xg as int, yg as int, (horizontal, x, y)) {
                saved(old(v)@[at3(l, x, y, xg as int, yg as int)])
            } else {
                old(v)@[at3(l, x, y, xg as int, yg as int)]
            }),
{
    let ghost v0 = v@;
    let ghost (nx, ny) = (xg as int, yg as int);
    let mut i: usize = 0;
    let (w, h) = (xg as usize, yg as usize);
    while i < v.len()
        invariant
            i <= v@.len() == v0.len(),
            w == xg,
            h == yg,
            xg >= 1,
            yg >= 1,
            (nx, ny) == (xg as int, yg as int),
            forall|j: int| 0 <= j < v0.len() ==> #[trigger] v@[j] == (if j < i && (if horizontal {
                j % nx < nx - 1
            } else {
                (j / nx) % ny < ny - 1
            }) {
                saved(v0[j])
            } else {
                v0[j]
            }),
        decreases v@.len() - i,
    {
        let inside = if horizontal { i % w < w - 1 } else { (i / w) % h < h - 1 };
        if inside {
            let e = v[i];
            v[i] = EdgeState { cap: e.cap, red: e.red, real_cap: e.cap };
        }
        i += 1;
    }
    proof {
        assert forall|l: int, x: int, y: int| in_grid3(l, x, y, nl as int, nx, ny) implies v@[#[trigger] at3(l, x, y, nx, ny)]
            == (if real_edge(nx, ny, (horizontal, x, y)) { saved(v0[at3(l, x, y, nx, ny)]) } else { v0[at3(l, x, y, nx, ny)] }) by {
            lemma_at3(l, x, y, nl as int, nx, ny);
            let j = at3(l, x, y, nx, ny);
            let row = l * ny + y;
            assert(j % nx == x && j / nx == row) by (nonlinear_arith)
                requires
                    j == row * nx + x,
                    0 <= x < nx,
                    0 <= row,
            ;
            assert(row % ny == y) by (nonlinear_arith)
                requires
                    row == l * ny + y,
                    0 <= y < ny,
                    0 <= l,
            ;
        }
    }
}

/// Keeps every edge's capacity as its real capacity, 2D and per layer. The 3D edges past the grid
/// keep whatever they had.
pub fn save_resources_before_adjustments(e: &mut RouterEdges)
    requires
        old(e).wf(),
    ensures
        final(e).wf(),
        final(e)@ == resources_saved(old(e)@),
{
    let (nl, xg, yg) = (e.num_layers, e.x_grid, e.y_grid);
    save_all(&mut e.h2);
    save_all(&mut e.v2);
    save_inside(&mut e.h3, true, nl, xg, yg);
    save_inside(&mut e.v3, false, nl, xg, yg);
    proof {
        let want = resources_saved(old(e)@);
        assert forall|k: (bool, int, int)| want.e2.dom().contains(k) implies #[trigger] e@.e2[k] == want.e2[k] by {
            if k.0 {
                lemma_at2(k.1, k.2, xg - 1, yg as int);
            } else {
                lemma_at2(k.1, k.2, xg as int, yg - 1);
            }
        }
        assert(e@.e2 =~= want.e2);
        assert(e@.e3 =~= want.e3);
        assert(e@ =~= want);
    }
}

/// Nothing but the real capacities changes when the resources are saved, and every edge inside the
/// grid then has its capacity as its real one.
pub proof fn saving_changes_real_capacities_only(v: EdgesView, k: (bool, int, int, int))
    requires
        v.e3.dom().contains(k),
    ensures
        resources_saved(v).e3[k].cap == v.e3[k].cap,
        resources_saved(v).e3[k].red == v.e3[k].red,
        real_edge(v.x_grid, v.y_grid, (k.0, k.2, k.3)) ==> resources_saved(v).e3[k].real_cap == v.e3[k].cap,
        resources_saved(resources_saved(v)) == resources_saved(v),
{
    let w = resources_saved(v);
    assert(resources_saved(w).e3 =~= w.e3);
    assert(resources_saved(w).e2 =~= w.e2);
}

/// The adjustment of one layer: the new capacity for each capacity an edge may have, and whether
/// the adjustment takes capacity away.
#[derive(Debug)]
pub struct LayerScale {
    pub scaled: Vec<u16>,
    pub is_reduce: bool,
}

/// The first cells of the edges of a direction, in the order they are walked.
pub open spec fn first_cells(xg: int, yg: int, horizontal: bool) -> Seq<(int, int)> {
    edge_order(xg, yg, horizontal).map_values(|p: ((int, int), (int, int))| p.0)
}

/// The edges of the adjusted layers `1..=n` scaled: layers below `min`, without an adjustment or
/// without a direction are left alone.
pub open spec fn layers_scaled(
    v: EdgesView, scales: Seq<Option<LayerScale>>, directions: Seq<Option<Direction>>, min: int, n: int,
) -> EdgesView
    decreases n,
{
    if n <= 0 {
        v
    } else {
        let w = layers_scaled(v, scales, directions, min, n - 1);
        match (scales[n], directions[n]) {
            (Some(s), Some(d)) => if n < min {
                w
            } else {
                let hor = d == Direction::Horizontal;
                walked(w, first_cells(w.x_grid, w.y_grid, hor), hor, n, |x: int, y: int, cap: u16| s.scaled@[cap as int], s.is_reduce)
            },
            _ => w,
        }
    }
}

proof fn lemma_walked_frame(
    v: EdgesView, cells: Seq<(int, int)>, horizontal: bool, layer: int, new_cap: spec_fn(int, int, u16) -> u16, is_reduce: bool,
)
    ensures
        ({
            let w = walked(v, cells, horizontal, layer, new_cap, is_reduce);
            &&& w.x_grid == v.x_grid && w.y_grid == v.y_grid && w.num_layers == v.num_layers
            &&& w.die == v.die && w.tile_size == v.tile_size && w.track_pitches == v.track_pitches
            &&& w.blocked == v.blocked && w.verbose == v.verbose
        }),
    decreases cells.len(),
{
    if cells.len() > 0 {
        lemma_walked_frame(v, cells.drop_last(), horizontal, layer, new_cap, is_reduce);
    }
}

/// Gives the edges of one direction new capacities from a table, in walking order.
fn scale_edges(e: &mut RouterEdges, horizontal: bool, layer: i32, scaled: &Vec<u16>, is_reduce: bool)
    requires
        old(e).wf(),
        1 <= layer <= old(e).num_layers,
        scaled@.len() == 0x1_0000,
    ensures
        final(e).wf(),
        final(e).x_grid == old(e).x_grid && final(e).y_grid == old(e).y_grid && final(e).num_layers == old(e).num_layers,
        final(e)@ == walked(
            old(e)@, first_cells(old(e)@.x_grid, old(e)@.y_grid, horizontal), horizontal, layer as int,
            |x: int, y: int, cap: u16| scaled@[cap as int], is_reduce,
        ),
{
    let ghost v = e@;
    let ghost f = |x: int, y: int, cap: u16| scaled@[cap as int];
    let ghost cells = first_cells(v.x_grid, v.y_grid, horizontal);
    let ghost want = edge_order(v.x_grid, v.y_grid, horizontal);
    proof {
        let (xg, yg) = (v.x_grid, v.y_grid);
        let (inner, outer) = if horizontal { (xg - 1, yg) } else { (yg - 1, xg) };
        assert(inner > 0 && outer > 0 ==> outer * inner <= yg * xg) by (nonlinear_arith)
            requires
                (inner == xg - 1 && outer == yg) || (inner == yg - 1 && outer == xg),
        ;
    }
    let order = capacity_edge_order(e.x_grid, e.y_grid, horizontal);
    let mut i: usize = 0;
    assert(cells.take(0) =~= Seq::empty());
    assert(int_edges(order@).len() == order@.len());
    while i < order.len()
        invariant
            i <= order@.len() == cells.len(),
            want == edge_order(v.x_grid, v.y_grid, horizontal),
            int_edges(order@) == want,
            cells == first_cells(v.x_grid, v.y_grid, horizontal),
            e.wf(),
            e.x_grid == v.x_grid && e.y_grid == v.y_grid && e.num_layers == v.num_layers,
            1 <= layer <= v.num_layers,
            scaled@.len() == 0x1_0000,
            f == (|x: int, y: int, cap: u16| scaled@[cap as int]),
            e@ == walked(v, cells.take(i as int), horizontal, layer as int, f, is_reduce),
        decreases order@.len() - i,
    {
        let ((x, y), (x2, y2)) = order[i];
        proof {
            assert(int_edges(order@)[i as int] == want[i as int]);
            lemma_edge_order(v.x_grid, v.y_grid, horizontal, i as int);
            assert(cells.take(i + 1).drop_last() =~= cells.take(i as int));
            assert(cells.take(i + 1).last() == (x as int, y as int));
        }
        let cap: i32 = e.get_edge_capacity(x, y, x2, y2, layer);
        e.add_adjustment(x, y, x2, y2, layer, scaled[cap as usize], is_reduce);
        i += 1;
    }
    assert(cells.take(i as int) =~= cells);
}

/// Scales every edge of each adjusted layer in range. The adjustments and the directions are indexed
/// by routing level.
pub fn compute_user_layer_adjustments(
    e: &mut RouterEdges,
    scales: &[Option<LayerScale>],
    directions: &[Option<Direction>],
    min_routing_layer: i32,
    max_routing_layer: i32,
)
    requires
        old(e).wf(),
        max_routing_layer <= old(e).num_layers,
        max_routing_layer < scales@.len(),
        max_routing_layer < directions@.len(),
        forall|l: int| 1 <= l <= max_routing_layer && scales@[l] is Some ==> (#[trigger] scales@[l])->0.scaled@.len() == 0x1_0000,
    ensures
        final(e).wf(),
        final(e)@ == layers_scaled(old(e)@, scales@, directions@, min_routing_layer as int, max_routing_layer as int),
{
    let ghost v = e@;
    let mut done: i32 = 0;
    while done < max_routing_layer
        invariant
            0 <= done,
            done <= max_routing_layer || done == 0,
            e.wf(),
            e.x_grid == v.x_grid && e.y_grid == v.y_grid && e.num_layers == v.num_layers,
            max_routing_layer <= v.num_layers,
            max_routing_layer < scales@.len(),
            max_routing_layer < directions@.len(),
            forall|l: int| 1 <= l <= max_routing_layer && scales@[l] is Some ==> (#[trigger] scales@[l])->0.scaled@.len() == 0x1_0000,
            e@ == layers_scaled(v, scales@, directions@, min_routing_layer as int, done as int),
        decreases max_routing_layer - done,
    {
        let layer: i32 = done + 1;
        if layer >= min_routing_layer {
            match &scales[layer as usize] {
                Some(s) => {
                    match directions[layer as usize] {
                        Some(Direction::Horizontal) => scale_edges(e, true, layer, &s.scaled, s.is_reduce),
                        Some(Direction::Vertical) => scale_edges(e, false, layer, &s.scaled, s.is_reduce),
                        None => {},
                    }
                },
                None => {},
            }
        }
        done = layer;
    }
}

/// A region adjustment whose region lies outside the die.
#[derive(Debug, Clone, Copy, PartialEq, Eq, Structural)]
pub struct RegionOutsideDie;

/// The tracks that a tile loses to a span: the span's length over the pitch, rounded up. Without a
/// pitch a span takes all there are.
pub open spec fn span_tracks(span: int, pitch: int) -> int {
    let n = abs(span) as int;
    if pitch > 0 {
        (n + pitch - 1) / pitch
    } else if pitch == 0 {
        if n == 0 { 0 } else { i32::MAX as int }
    } else {
        -(n / (-pitch))
    }
}

/// How many tracks an edge tile loses to a region.
pub fn compute_tile_reduce(obs: Rect, tile: Rect, track_space: i32, first: bool, direction: Option<Direction>) -> (r: i32)
    requires
        ({
            let (lo, hi) = covered_span(obs, tile, first, direction == Some(Direction::Vertical));
            fits(hi - lo) && hi - lo > i32::MIN
        }),
    ensures
        ({
            let (lo, hi) = covered_span(obs, tile, first, direction == Some(Direction::Vertical));
            r == span_tracks(hi - lo, track_space as int)
        }),
{
    let (lo, hi, tlo, thi) = if is_vertical(direction) {
        (obs.x_min, obs.x_max, tile.x_min, tile.x_max)
    } else {
        (obs.y_min, obs.y_max, tile.y_min, tile.y_max)
    };
    let span: i32 = if lo >= tlo && hi <= thi {
        hi - lo
    } else if first {
        thi - lo
    } else {
        hi - tlo
    };
    let n: i64 = if span < 0 { -(span as i64) } else { span as i64 };
    let p: i64 = track_space as i64;
    if p > 0 {
        let q: i64 = (n + p - 1) / p;
        assert(0 <= q <= n) by (nonlinear_arith)
            requires
                q == (n + p - 1) / (p as int),
                p >= 1,
                n >= 0,
        ;
        q as i32
    } else if p == 0 {
        if n == 0 { 0 } else { i32::MAX }
    } else {
        let m: i64 = -p;
        let q: i64 = n / m;
        assert(0 <= q <= n) by (nonlinear_arith)
            requires
                q == n as int / (m as int),
                m >= 1,
                n >= 0,
        ;
        -(q as i32)
    }
}

/// The cells a region covers, and the tracks its first and last tiles lose.
#[derive(Debug, Clone, Copy, PartialEq, Eq)]
pub struct RegionTiles {
    pub first: (i32, i32),
    pub last: (i32, i32),
    pub first_reduce: i32,
    pub last_reduce: i32,
}

/// Whether a region sticks out of the die on both axes at one corner.
pub open spec fn region_outside(die: Rect, region: Rect) -> bool {
    (die.x_min > region.x_min && die.y_min > region.y_min) || (die.x_max < region.x_max && die.y_max < region.y_max)
}

/// The tiles of a region: refused when it sticks out of the die on both axes at one corner.
pub fn region_tiles(e: &RouterEdges, region: Rect, direction: Option<Direction>, use_pitch: i32) -> (r: Result<RegionTiles, RegionOutsideDie>)
    requires
        !region_outside(e.die, region) ==> {
            let (fb, lb, first, last) = blocked_tiles(e@, region);
            let vertical = direction == Some(Direction::Vertical);
            let f = covered_span(region, rect_of(fb), true, vertical);
            let l = covered_span(region, rect_of(lb), false, vertical);
            &&& blocked_tiles_fit(e@, region)
            &&& fits(f.1 - f.0) && f.1 - f.0 > i32::MIN
            &&& fits(l.1 - l.0) && l.1 - l.0 > i32::MIN
        },
    ensures
        r is Err <==> region_outside(e.die, region),
        r matches Ok(t) ==> {
            let (fb, lb, first, last) = blocked_tiles(e@, region);
            let vertical = direction == Some(Direction::Vertical);
            let f = covered_span(region, rect_of(fb), true, vertical);
            let l = covered_span(region, rect_of(lb), false, vertical);
            &&& ints(t.first) == first
            &&& ints(t.last) == last
            &&& t.first_reduce == span_tracks(f.1 - f.0, use_pitch as int)
            &&& t.last_reduce == span_tracks(l.1 - l.0, use_pitch as int)
        },
{
    let die = e.die;
    if (die.x_min > region.x_min && die.y_min > region.y_min) || (die.x_max < region.x_max && die.y_max < region.y_max) {
        return Err(RegionOutsideDie);
    }
    let (first_box, last_box, first, last) = e.get_blocked_tiles(region);
    proof {
        let b = blocked_tiles(e@, region);
        assert(rect_of(b.0) == first_box);
        assert(rect_of(b.1) == last_box);
    }
    Ok(
        RegionTiles {
            first,
            last,
            first_reduce: compute_tile_reduce(region, first_box, use_pitch, true, direction),
            last_reduce: compute_tile_reduce(region, last_box, use_pitch, false, direction),
        },
    )
}

/// The new capacity of a region's edges for each capacity an edge may have: on its first row and
/// column, on its last, and inside.
#[derive(Debug)]
pub struct RegionCaps {
    pub first: Vec<u16>,
    pub last: Vec<u16>,
    pub inner: Vec<u16>,
}

/// The cells from `first` through `last`, column by column.
pub open spec fn region_cells(first: (int, int), last: (int, int)) -> Seq<(int, int)> {
    let (w, h) = (last.0 - first.0 + 1, last.1 - first.1 + 1);
    Seq::new(
        (if w <= 0 || h <= 0 { 0 } else { w * h }) as nat,
        |i: int| (first.0 + i / h, first.1 + i % h),
    )
}

/// The new capacity of one edge of a region.
pub open spec fn region_cap(caps: RegionCaps, first: (int, int), last: (int, int), x: int, y: int, cap: u16) -> u16 {
    if x == first.0 || y == first.1 {
        caps.first@[cap as int]
    } else if x == last.0 || y == last.1 {
        caps.last@[cap as int]
    } else {
        caps.inner@[cap as int]
    }
}

/// Gives every edge leaving a cell of the region its new capacity on one layer.
pub fn compute_region_adjustments(e: &mut RouterEdges, tiles: RegionTiles, layer: i32, caps: &RegionCaps, direction: Option<Direction>)
    requires
        old(e).wf(),
        1 <= layer <= old(e).num_layers,
        in_grid2(tiles.first.0 as int, tiles.first.1 as int, old(e).x_grid as int, old(e).y_grid as int),
        in_grid2(tiles.last.0 as int, tiles.last.1 as int, old(e).x_grid as int, old(e).y_grid as int),
        caps.first@.len() == 0x1_0000,
        caps.last@.len() == 0x1_0000,
        caps.inner@.len() == 0x1_0000,
    ensures
        final(e).wf(),
        final(e)@ == walked(
            old(e)@, region_cells(ints(tiles.first), ints(tiles.last)), direction != Some(Direction::Vertical), layer as int,
            |x: int, y: int, cap: u16| region_cap(*caps, ints(tiles.first), ints(tiles.last), x, y, cap), true,
        ),
{
    let vertical = is_vertical(direction);
    let ghost v = e@;
    let ghost (f, l) = (ints(tiles.first), ints(tiles.last));
    let ghost cells = region_cells(f, l);
    let ghost new_cap = |x: int, y: int, cap: u16| region_cap(*caps, f, l, x, y, cap);
    let ghost h = l.1 - f.1 + 1;
    let (first, last) = (tiles.first, tiles.last);
    if last.1 < first.1 || last.0 < first.0 {
        return;
    }
    let mut x: i32 = first.0;
    assert(0 * h == 0);
    assert(cells.take(0) =~= Seq::empty());
    while x <= last.0
        invariant
            e.wf(),
            e.x_grid == v.x_grid && e.y_grid == v.y_grid && e.num_layers == v.num_layers,
            1 <= layer <= v.num_layers,
            (f, l) == (ints(first), ints(last)),
            in_grid2(f.0, f.1, v.x_grid, v.y_grid),
            in_grid2(l.0, l.1, v.x_grid, v.y_grid),
            caps.first@.len() == 0x1_0000,
            caps.last@.len() == 0x1_0000,
            caps.inner@.len() == 0x1_0000,
            first.0 <= x <= last.0 + 1,
            first.1 <= last.1,
            h == l.1 - f.1 + 1,
            cells == region_cells(f, l),
            v.x_grid <= i32::MAX && v.y_grid <= i32::MAX,
            new_cap == (|x: int, y: int, cap: u16| region_cap(*caps, f, l, x, y, cap)),
            e@ == walked(v, cells.take((x - f.0) * h), !vertical, layer as int, new_cap, true),
        decreases last.0 + 1 - x,
    {
        let mut y: i32 = first.1;
        let ghost base = (x - f.0) * h;
        while y <= last.1
            invariant
                e.wf(),
                e.x_grid == v.x_grid && e.y_grid == v.y_grid && e.num_layers == v.num_layers,
                1 <= layer <= v.num_layers,
                (f, l) == (ints(first), ints(last)),
                in_grid2(f.0, f.1, v.x_grid, v.y_grid),
                in_grid2(l.0, l.1, v.x_grid, v.y_grid),
                caps.first@.len() == 0x1_0000,
                caps.last@.len() == 0x1_0000,
                caps.inner@.len() == 0x1_0000,
                first.0 <= x <= last.0,
                first.1 <= y <= last.1 + 1,
                first.1 <= last.1,
                h == l.1 - f.1 + 1,
                base == (x - f.0) * h,
                cells == region_cells(f, l),
                v.x_grid <= i32::MAX && v.y_grid <= i32::MAX,
                new_cap == (|x: int, y: int, cap: u16| region_cap(*caps, f, l, x, y, cap)),
                e@ == walked(v, cells.take(base + (y - f.1)), !vertical, layer as int, new_cap, true),
            decreases last.1 + 1 - y,
        {
            let ghost i = base + (y - f.1);
            proof {
                let (c, r) = (x - f.0, y - f.1);
                assert(i / h == c && i % h == r) by (nonlinear_arith)
                    requires
                        i == c * h + r,
                        0 <= r < h,
                        0 <= c,
                ;
                lemma_at2(r, c, h, l.0 - f.0 + 1);
                assert(cells[i] == (x as int, y as int));
                assert(cells.take(i + 1).drop_last() =~= cells.take(i));
                assert(cells.take(i + 1).last() == (x as int, y as int));
            }
            let (x2, y2) = if vertical { (x, y + 1) } else { (x + 1, y) };
            let cap: i32 = e.get_edge_capacity(x, y, x2, y2, layer);
            let c: u16 = if x == first.0 || y == first.1 {
                caps.first[cap as usize]
            } else if x == last.0 || y == last.1 {
                caps.last[cap as usize]
            } else {
                caps.inner[cap as usize]
            };
            e.add_adjustment(x, y, x2, y2, layer, c, true);
            y += 1;
        }
        assert((x + 1 - f.0) * h == base + h) by (nonlinear_arith)
            requires
                base == (x - f.0) * h,
        ;
        x += 1;
    }
    assert(cells.take((x - f.0) * h) =~= cells) by {
        assert((x - f.0) * h == (l.0 - f.0 + 1) * h);
    }
}

/// Gives a layer in range without an adjustment of its own the global one. The adjustments are
/// indexed by routing level.
pub fn compute_user_global_adjustments<T: Copy>(
    layer_adjustment: &mut Vec<Option<T>>,
    adjustment: Option<T>,
    min_routing_layer: i32,
    max_routing_layer: i32,
)
    requires
        adjustment is Some && min_routing_layer <= max_routing_layer ==> 0 <= min_routing_layer && max_routing_layer < old(layer_adjustment)@.len(),
    ensures
        final(layer_adjustment)@ == Seq::new(
            old(layer_adjustment)@.len(),
            |l: int|
                if min_routing_layer <= l <= max_routing_layer && old(layer_adjustment)@[l] is None {
                    adjustment
                } else {
                    old(layer_adjustment)@[l]
                },
        ),
{
    let ghost v = layer_adjustment@;
    if adjustment.is_some() && min_routing_layer <= max_routing_layer {
        let mut l: usize = min_routing_layer as usize;
        while l <= max_routing_layer as usize
            invariant
                0 <= min_routing_layer <= l <= max_routing_layer + 1,
                min_routing_layer <= max_routing_layer,
                max_routing_layer < v.len(),
                layer_adjustment@ == Seq::new(
                    v.len(),
                    |i: int| if min_routing_layer <= i < l && v[i] is None { adjustment } else { v[i] },
                ),
            decreases max_routing_layer + 1 - l,
        {
            if layer_adjustment[l].is_none() {
                layer_adjustment[l] = adjustment;
            }
            l += 1;
            assert(layer_adjustment@ =~= Seq::new(
                v.len(),
                |i: int| if min_routing_layer <= i < l && v[i] is None { adjustment } else { v[i] },
            ));
        }
    }
    assert(layer_adjustment@ =~= Seq::new(
        v.len(),
        |i: int| if min_routing_layer <= i <= max_routing_layer && v[i] is None { adjustment } else { v[i] },
    ));
}

/// An obstruction touches one layer and one direction only, and an edge strictly between its sides
/// keeps no capacity: all it had goes to its reduction.
pub proof fn obstruction_blocks_the_edges_between_its_sides(
    v: EdgesView, obstruction: Rect, layer: int, vertical: bool, is_macro: bool, k: (bool, int, int, int),
)
    requires
        v.e3.dom().contains(k),
        !clipped_away(v.die, obstruction),
    ensures
        ({
            let w = obstructed(v, obstruction, layer, vertical, is_macro);
            let (first, last, fi, li) = obstruction_span(v, obstruction, layer, vertical, is_macro);
            let between = k.0 == !vertical && k.1 == layer - 1 && in_span(!vertical, first, last, k.2, k.3) && (if vertical {
                k.2 != first.0 && k.2 != last.0
            } else {
                k.3 != first.1 && k.3 != last.1
            });
            &&& between ==> w.e3[k].cap == 0 && w.e3[k].red == (v.e3[k].red + v.e3[k].cap) as u16
            &&& !between ==> w.e3[k] == v.e3[k]
        }),
{
}

/// What an edge loses goes to its reduction and off the plane's edge over it: as long as the numbers can be
/// held, the capacity and the reduction of each stay the same together, the plane's edge loses as much
/// capacity as the edge in space, and no other edge is touched.
pub proof fn what_an_edge_loses_is_kept_as_its_reduction(v: EdgesView, horizontal: bool, x: int, y: int, layer: int, reduced: u16, j: (bool, int, int, int), k: (bool, int, int))
    requires
        reduced <= v.e3[(horizontal, layer - 1, x, y)].cap,
        v.e3[(horizontal, layer - 1, x, y)].cap + v.e3[(horizontal, layer - 1, x, y)].red <= u16::MAX,
        v.e2[(horizontal, x, y)].cap + v.e2[(horizontal, x, y)].red <= u16::MAX,
        v.e3[(horizontal, layer - 1, x, y)].cap - reduced <= v.e2[(horizontal, x, y)].cap,
        real_edge(v.x_grid, v.y_grid, (horizontal, x, y)),
    ensures
        ({
            let (k3, k2) = ((horizontal, layer - 1, x, y), (horizontal, x, y));
            let w = adjusted(v, horizontal, x, y, layer, reduced, true);
            &&& w.e3[k3].cap == reduced
            &&& w.e3[k3].cap + w.e3[k3].red == v.e3[k3].cap + v.e3[k3].red
            &&& w.e2[k2].cap + w.e2[k2].red == v.e2[k2].cap + v.e2[k2].red
            &&& v.e2[k2].cap - w.e2[k2].cap == v.e3[k3].cap - w.e3[k3].cap
            &&& w.e3[k3].real_cap == v.e3[k3].real_cap
            &&& w.e2[k2].real_cap == v.e2[k2].real_cap
            &&& j != k3 ==> w.e3[j] == v.e3[j]
            &&& k != k2 ==> w.e2[k] == v.e2[k]
            &&& w.log == v.log
        }),
{
}

/// What an edge gains comes off its reduction, as far as there is any, and the plane's edge over it gains
/// as much.
pub proof fn what_an_edge_gains_comes_off_its_reduction(v: EdgesView, horizontal: bool, x: int, y: int, layer: int, raised: u16)
    requires
        v.e3[(horizontal, layer - 1, x, y)].cap <= raised,
        v.e2[(horizontal, x, y)].cap + (raised - v.e3[(horizontal, layer - 1, x, y)].cap) <= u16::MAX,
        real_edge(v.x_grid, v.y_grid, (horizontal, x, y)),
    ensures
        ({
            let (k3, k2) = ((horizontal, layer - 1, x, y), (horizontal, x, y));
            let w = adjusted(v, horizontal, x, y, layer, raised, false);
            let gain = raised - v.e3[k3].cap;
            &&& w.e3[k3].cap == raised
            &&& w.e2[k2].cap - v.e2[k2].cap == gain
            &&& gain <= v.e3[k3].red ==> v.e3[k3].red - w.e3[k3].red == gain
            &&& gain > v.e3[k3].red ==> w.e3[k3].red == 0
            &&& gain <= v.e2[k2].red ==> v.e2[k2].red - w.e2[k2].red == gain
            &&& gain > v.e2[k2].red ==> w.e2[k2].red == 0
        }),
{
}

/// A rectangle with its coordinates exchanged.
pub open spec fn transposed(r: Rect) -> Rect {
    Rect { x_min: r.y_min, y_min: r.x_min, x_max: r.y_max, y_max: r.x_max }
}

/// An obstruction is treated alike in both directions: exchanging the coordinates exchanges what it blocks.
pub proof fn both_directions_are_blocked_alike(obs: Rect, die: Rect, tile: Rect, track_space: int, is_first: bool, vertical: bool, layer_cap: int, is_macro: bool)
    ensures
        tile_reduce_interval(transposed(obs), transposed(tile), track_space, is_first, !vertical, layer_cap, is_macro) == tile_reduce_interval(
            obs,
            tile,
            track_space,
            is_first,
            vertical,
            layer_cap,
            is_macro,
        ),
        overlaps(transposed(obs), transposed(die)) == overlaps(obs, die),
        clipped(transposed(die), transposed(obs)) == transposed(clipped(die, obs)),
        clipped_away(transposed(die), transposed(obs)) == clipped_away(die, obs),
{
}

/// A span of cells is treated alike in both directions: exchanging the coordinates exchanges the cells and
/// their sides.
pub proof fn both_directions_are_spanned_alike(horizontal: bool, start: (int, int), last: (int, int), fi: (i32, i32), li: (i32, i32), x: int, y: int)
    ensures
        in_span(!horizontal, (start.1, start.0), (last.1, last.0), y, x) == in_span(horizontal, start, last, x, y),
        edge_interval(!horizontal, (start.1, start.0), (last.1, last.0), fi, li, y, x) == edge_interval(horizontal, start, last, fi, li, x, y),
{
}

/// What is left of an obstruction that overlaps the die is what both have in common.
pub proof fn a_clipped_obstruction_is_what_lies_in_the_die(die: Rect, obs: Rect, x: int, y: int)
    requires
        overlaps(obs, die),
    ensures
        ({
            let r = clipped(die, obs);
            (r.x_min <= x <= r.x_max && r.y_min <= y <= r.y_max) <==> {
                &&& die.x_min <= x <= die.x_max && die.y_min <= y <= die.y_max
                &&& obs.x_min <= x <= obs.x_max && obs.y_min <= y <= obs.y_max
            }
        }),
{
}

/// A coordinate lies in its cell, and the centre of a cell half a cell from its near side.
pub proof fn a_coordinate_lies_in_its_cell(p: int, origin: int, tile: int, cells: int)
    requires
        tile > 0,
        cells > 0,
        0 <= p - origin <= cells * tile,
    ensures
        0 <= cell_of(p, origin, tile, cells) < cells,
        origin + cell_of(p, origin, tile, cells) * tile <= p <= origin + (cell_of(p, origin, tile, cells) + 1) * tile,
        centre_of(cell_of(p, origin, tile, cells), origin, tile) == origin + cell_of(p, origin, tile, cells) * tile + tile / 2,
{
    let d = p - origin;
    let g = d / tile;
    assert(g * tile <= d < (g + 1) * tile && g >= 0) by (nonlinear_arith)
        requires
            tile > 0,
            d >= 0,
            g == d / tile,
    ;
    assert(g <= cells) by (nonlinear_arith)
        requires
            tile > 0,
            g * tile <= d,
            d <= cells * tile,
    ;
    if g == cells {
        assert((g - 1) * tile <= d) by (nonlinear_arith)
            requires
                g * tile <= d,
                tile > 0,
        ;
        assert(d <= (g - 1 + 1) * tile);
    }
}

/// The length of intervals in all is the sum of their lengths.
pub proof fn the_length_in_all_is_that_of_every_interval(s: Seq<(i32, i32)>)
    ensures
        total_length(s) == sum_of(s.len() as int, |k: int| s[k].1 - s[k].0),
    decreases s.len(),
{
    let f = |k: int| s[k].1 - s[k].0;
    let n = s.len() as int;
    if n > 0 {
        let t = s.drop_last();
        let h = |k: int| t[k].1 - t[k].0;
        the_length_in_all_is_that_of_every_interval(t);
        lemma_sum_next(n - 1, f);
        assert(Seq::new((n - 1) as nat, f) =~= Seq::new((n - 1) as nat, h));
    } else {
        lemma_sum_none(f);
    }
}

/// Walking cells sets the capacity of each of them, from what it had, and of no other edge.
pub proof fn a_walk_sets_the_cells_it_passes(
    v: EdgesView,
    cells: Seq<(int, int)>,
    horizontal: bool,
    layer: int,
    new_cap: spec_fn(int, int, u16) -> u16,
    is_reduce: bool,
    k: (bool, int, int, int),
)
    requires
        cells.no_duplicates(),
    ensures
        ({
            let w = walked(v, cells, horizontal, layer, new_cap, is_reduce);
            if k.0 == horizontal && k.1 == layer - 1 && cells.contains((k.2, k.3)) {
                w.e3[k].cap == new_cap(k.2, k.3, v.e3[k].cap)
            } else {
                w.e3[k] == v.e3[k]
            }
        }),
    decreases cells.len(),
{
    if cells.len() > 0 {
        let n = cells.len() - 1;
        let s = cells.drop_last();
        let (x, y) = cells.last();
        assert(s.no_duplicates()) by {
            assert forall|i: int, j: int| 0 <= i < s.len() && 0 <= j < s.len() && i != j implies s[i] != s[j] by {
                assert(cells[i] == s[i] && cells[j] == s[j]);
            }
        }
        a_walk_sets_the_cells_it_passes(v, s, horizontal, layer, new_cap, is_reduce, k);
        a_walk_sets_the_cells_it_passes(v, s, horizontal, layer, new_cap, is_reduce, (horizontal, layer - 1, x, y));
        assert(!s.contains((x, y))) by {
            if s.contains((x, y)) {
                let i = choose|i: int| 0 <= i < s.len() && s[i] == (x, y);
                assert(cells[i] == cells[n]);
            }
        }
        assert(cells.contains((k.2, k.3)) == (s.contains((k.2, k.3)) || (k.2, k.3) == (x, y))) by {
            if s.contains((k.2, k.3)) {
                let i = choose|i: int| 0 <= i < s.len() && s[i] == (k.2, k.3);
                assert(cells[i] == s[i]);
            }
            if cells.contains((k.2, k.3)) {
                let i = choose|i: int| 0 <= i < cells.len() && cells[i] == (k.2, k.3);
                if i < n {
                    assert(s[i] == cells[i]);
                }
            }
            assert(cells[n] == (x, y));
        }
    }
}

} // verus!
