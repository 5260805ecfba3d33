//! The antenna check's view of a net: the polygons of each layer, the links between them through
//! the vias, and the gates that each piece of metal reaches as the layers are built.

use crate::lists::{all_of, count_of, lemma_all_next, lemma_all_none, lemma_count_next, lemma_count_none, lemma_sum_next, lemma_sum_none, sum_of};
use vstd::prelude::*;
use vstd::string::StringExecFns;

use crate::callbacks::same_text;
use crate::dsu::{linked, Dsu};
use crate::text::{dec, push_int};
use crate::vecs::copy_vec;
use crate::Rect;

verus! {

/// A box: `(x0, y0, x1, y1)`.
pub type R = (i32, i32, i32, i32);

// ---- coordinates in order ----

/// Whether a list ascends strictly.
pub open spec fn ascending(s: Seq<i32>) -> bool {
    forall|i: int, j: int| 0 <= i < j < s.len() ==> #[trigger] s[i] < #[trigger] s[j]
}

/// Puts a value in its place of a strictly ascending list, once.
fn put(s: &mut Vec<i32>, x: i32)
    requires
        ascending(old(s)@),
    ensures
        ascending(final(s)@),
        forall|v: i32| #[trigger] final(s)@.contains(v) <==> old(s)@.contains(v) || v == x,
{
    let ghost s0 = s@;
    let mut k: usize = 0;
    while k < s.len() && s[k] < x
        invariant
            k <= s@.len(),
            s@ == s0,
            forall|i: int| 0 <= i < k ==> (#[trigger] s@[i]) < x,
        decreases s@.len() - k,
    {
        k += 1;
    }
    if k < s.len() && s[k] == x {
        assert(s0.contains(s0[k as int]));
        return;
    }
    s.insert(k, x);
    proof {
        assert forall|v: i32| #[trigger] s@.contains(v) <==> s0.contains(v) || v == x by {
            if s0.contains(v) {
                let i = choose|i: int| 0 <= i < s0.len() && s0[i] == v;
                if i < k {
                    assert(s@[i] == v);
                } else {
                    assert(s@[i + 1] == v);
                }
            }
            if s@.contains(v) && v != x {
                let i = choose|i: int| 0 <= i < s@.len() && s@[i] == v;
                if i < k {
                    assert(s0[i] == v);
                } else {
                    assert(s0[i - 1] == v);
                }
            }
            assert(s@[k as int] == x);
        }
    }
}

// ---- regions ----

/// A region on a grid of its own: `cells[i][j]` tells whether it holds the box between `xs[i]` and
/// `xs[i + 1]`, `ys[j]` and `ys[j + 1]`.
#[derive(Debug, Clone)]
pub struct Region {
    pub xs: Vec<i32>,
    pub ys: Vec<i32>,
    pub cells: Vec<Vec<bool>>,
}

/// The number of gaps between `n` coordinates.
pub open spec fn gaps(n: int) -> int {
    if n > 0 { n - 1 } else { 0 }
}

impl Region {
    pub open spec fn wf(&self) -> bool {
        &&& ascending(self.xs@)
        &&& ascending(self.ys@)
        &&& self.cells@.len() == gaps(self.xs@.len() as int)
        &&& forall|i: int| 0 <= i < self.cells@.len() ==> (#[trigger] self.cells@[i])@.len() == gaps(self.ys@.len() as int)
    }

    /// Whether the region holds a cell of its grid.
    pub open spec fn holds(&self, i: int, j: int) -> bool {
        0 <= i < self.cells@.len() && 0 <= j < self.cells@[i]@.len() && self.cells@[i]@[j]
    }

    /// A cell as a box.
    pub open spec fn cell(&self, i: int, j: int) -> R {
        (self.xs@[i], self.ys@[j], self.xs@[i + 1], self.ys@[j + 1])
    }

    /// Whether a box is a cell that the region holds.
    pub open spec fn has(&self, b: R) -> bool {
        exists|i: int, j: int| #[trigger] self.holds(i, j) && self.cell(i, j) == b
    }

    /// The cells that the region holds.
    pub open spec fn boxes(&self) -> Set<R> {
        Set::new(|b: R| self.has(b))
    }

    /// The cells that the region holds, as boxes.
    pub fn rects(&self) -> (r: Vec<R>)
        requires
            self.wf(),
        ensures
            forall|b: R| #[trigger] r@.contains(b) <==> self.has(b),
    {
        let mut r: Vec<R> = Vec::new();
        let mut i: usize = 0;
        while i < self.cells.len()
            invariant
                self.wf(),
                i <= self.cells@.len(),
                forall|k: int| 0 <= k < r@.len() ==> self.has(#[trigger] r@[k]),
                forall|a: int, b: int| 0 <= a < i && #[trigger] self.holds(a, b) ==> r@.contains(self.cell(a, b)),
            decreases self.cells@.len() - i,
        {
            let mut j: usize = 0;
            while j < self.cells[i].len()
                invariant
                    self.wf(),
                    i < self.cells@.len(),
                    j <= self.cells@[i as int]@.len(),
                    forall|k: int| 0 <= k < r@.len() ==> self.has(#[trigger] r@[k]),
                    forall|a: int, b: int| 0 <= a < i && #[trigger] self.holds(a, b) ==> r@.contains(self.cell(a, b)),
                    forall|b: int| 0 <= b < j && #[trigger] self.holds(i as int, b) ==> r@.contains(self.cell(i as int, b)),
                decreases self.cells@[i as int]@.len() - j,
            {
                let ghost r0 = r@;
                if self.cells[i][j] {
                    let width: usize = self.xs.len();
                    assert(i + 1 < width);
                    r.push((self.xs[i], self.ys[j], self.xs[i + 1], self.ys[j + 1]));
                    assert(self.holds(i as int, j as int));
                    assert(r@[r0.len() as int] == self.cell(i as int, j as int));
                }
                proof {
                    assert forall|v: R| r0.contains(v) implies r@.contains(v) by {
                        let k = choose|k: int| 0 <= k < r0.len() && r0[k] == v;
                        assert(r@[k] == v);
                    }
                }
                j += 1;
            }
            i += 1;
        }
        proof {
            assert forall|b: R| #[trigger] r@.contains(b) <==> self.has(b) by {
                if self.has(b) {
                    let (i, j) = choose|i: int, j: int| #[trigger] self.holds(i, j) && self.cell(i, j) == b;
                    assert(r@.contains(self.cell(i, j)));
                }
            }
        }
        r
    }

    /// What some box of `add` covers and none of `sub`.
    pub fn new(add: &[R], sub: &[R]) -> (r: Region)
        ensures
            is_cover(add@, sub@, r),
    {
        let mut xs: Vec<i32> = Vec::new();
        let mut ys: Vec<i32> = Vec::new();
        edges(add, &mut xs, &mut ys);
        edges(sub, &mut xs, &mut ys);
        let mut cells: Vec<Vec<bool>> = Vec::new();
        let mut i: usize = 0;
        while xs.len() > 0 && i < xs.len() - 1
            invariant
                ascending(xs@),
                ascending(ys@),
                i <= gaps(xs@.len() as int),
                cells@.len() == i,
                forall|a: int| 0 <= a < i ==> (#[trigger] cells@[a])@.len() == gaps(ys@.len() as int),
                forall|a: int, b: int| 0 <= a < i && 0 <= b < gaps(ys@.len() as int) ==> #[trigger] cells@[a]@[b] == (covered(add@, (xs@[a], ys@[b], xs@[a + 1], ys@[b + 1])) && !covered(
                    sub@,
                    (xs@[a], ys@[b], xs@[a + 1], ys@[b + 1]),
                )),
            decreases xs@.len() - i,
        {
            let mut col: Vec<bool> = Vec::new();
            let mut j: usize = 0;
            while ys.len() > 0 && j < ys.len() - 1
                invariant
                    i < gaps(xs@.len() as int),
                    j <= gaps(ys@.len() as int),
                    col@.len() == j,
                    forall|b: int| 0 <= b < j ==> #[trigger] col@[b] == (covered(add@, (xs@[i as int], ys@[b], xs@[i + 1], ys@[b + 1])) && !covered(
                        sub@,
                        (xs@[i as int], ys@[b], xs@[i + 1], ys@[b + 1]),
                    )),
                decreases ys@.len() - j,
            {
                let width: usize = xs.len();
                assert(i + 1 < width);
                let c: R = (xs[i], ys[j], xs[i + 1], ys[j + 1]);
                let inside = covers(add, c) && !covers(sub, c);
                col.push(inside);
                j += 1;
            }
            cells.push(col);
            i += 1;
        }
        Region { xs, ys, cells }
    }
}

/// Whether a region is what some box of `add` covers and none of `sub`, on the grid of their edges.
pub open spec fn is_cover(add: Seq<R>, sub: Seq<R>, r: Region) -> bool {
    &&& r.wf()
    &&& forall|x: i32| #[trigger] r.xs@.contains(x) <==> at_edge(add, x, true) || at_edge(sub, x, true)
    &&& forall|y: i32| #[trigger] r.ys@.contains(y) <==> at_edge(add, y, false) || at_edge(sub, y, false)
    &&& forall|i: int, j: int| 0 <= i < gaps(r.xs@.len() as int) && 0 <= j < gaps(r.ys@.len() as int) ==> (#[trigger] r.holds(i, j) <==> covered(add, r.cell(i, j)) && !covered(sub, r.cell(i, j)))
}

/// Whether a coordinate is that of a box's left or right edge (`across`), or of its bottom or top.
pub open spec fn at_edge(boxes: Seq<R>, v: i32, across: bool) -> bool {
    exists|k: int| 0 <= k < boxes.len() && is_edge(#[trigger] boxes[k], v, across)
}

/// Whether a coordinate is that of an edge of a box.
pub open spec fn is_edge(b: R, v: i32, across: bool) -> bool {
    if across { b.0 == v || b.2 == v } else { b.1 == v || b.3 == v }
}

/// Whether a box holds another.
pub open spec fn contains_box(b: R, c: R) -> bool {
    b.0 <= c.0 && c.2 <= b.2 && b.1 <= c.1 && c.3 <= b.3
}

/// Whether some box holds `c`.
pub open spec fn covered(boxes: Seq<R>, c: R) -> bool {
    exists|k: int| 0 <= k < boxes.len() && contains_box(#[trigger] boxes[k], c)
}

fn covers(boxes: &[R], c: R) -> (r: bool)
    ensures
        r == covered(boxes@, c),
{
    let mut k: usize = 0;
    while k < boxes.len()
        invariant
            k <= boxes@.len(),
            forall|j: int| 0 <= j < k ==> !contains_box(#[trigger] boxes@[j], c),
        decreases boxes@.len() - k,
    {
        let b = boxes[k];
        if b.0 <= c.0 && c.2 <= b.2 && b.1 <= c.1 && c.3 <= b.3 {
            assert(contains_box(boxes@[k as int], c));
            return true;
        }
        k += 1;
    }
    false
}

/// Puts the coordinates of the boxes' edges in their places.
fn edges(boxes: &[R], xs: &mut Vec<i32>, ys: &mut Vec<i32>)
    requires
        ascending(old(xs)@),
        ascending(old(ys)@),
    ensures
        ascending(final(xs)@),
        ascending(final(ys)@),
        forall|x: i32| #[trigger] final(xs)@.contains(x) <==> old(xs)@.contains(x) || at_edge(boxes@, x, true),
        forall|y: i32| #[trigger] final(ys)@.contains(y) <==> old(ys)@.contains(y) || at_edge(boxes@, y, false),
{
    let ghost (xs0, ys0) = (xs@, ys@);
    let mut k: usize = 0;
    while k < boxes.len()
        invariant
            k <= boxes@.len(),
            ascending(xs@),
            ascending(ys@),
            forall|x: i32| #[trigger] xs@.contains(x) <==> xs0.contains(x) || at_edge(boxes@.take(k as int), x, true),
            forall|y: i32| #[trigger] ys@.contains(y) <==> ys0.contains(y) || at_edge(boxes@.take(k as int), y, false),
        decreases boxes@.len() - k,
    {
        let b = boxes[k];
        put(xs, b.0);
        put(xs, b.2);
        put(ys, b.1);
        put(ys, b.3);
        proof {
            assert forall|v: i32, across: bool| #[trigger] at_edge(boxes@.take(k + 1), v, across) <==> at_edge(boxes@.take(k as int), v, across) || is_edge(b, v, across) by {
                let (t0, t1) = (boxes@.take(k as int), boxes@.take(k + 1));
                if at_edge(t1, v, across) {
                    let j = choose|j: int| 0 <= j < t1.len() && is_edge(#[trigger] t1[j], v, across);
                    if j < k {
                        assert(is_edge(t0[j], v, across));
                    }
                }
                if at_edge(t0, v, across) {
                    let j = choose|j: int| 0 <= j < t0.len() && is_edge(#[trigger] t0[j], v, across);
                    assert(is_edge(t1[j], v, across));
                }
                if is_edge(b, v, across) {
                    assert(is_edge(t1[k as int], v, across));
                }
            }
        }
        k += 1;
    }
    assert(boxes@.take(k as int) =~= boxes@);
}

/// Whether two boxes overlap in positive area once one of them is grown by one unit each way.
pub open spec fn close(a: R, b: R) -> bool {
    a.2 > b.0 - 1 && a.0 < b.2 + 1 && a.3 > b.1 - 1 && a.1 < b.3 + 1
}

/// Whether a region comes within a unit of some box of a set.
pub open spec fn near(a: Region, q: Set<R>) -> bool {
    exists|b: R, c: R| #[trigger] a.has(b) && #[trigger] q.contains(c) && close(b, c)
}

fn is_near(a: &Region, q: &[R]) -> (r: bool)
    requires
        a.wf(),
    ensures
        r == near(*a, q@.to_set()),
{
    let cells = a.rects();
    let mut i: usize = 0;
    while i < cells.len()
        invariant
            i <= cells@.len(),
            forall|b: R| #[trigger] cells@.contains(b) <==> a.has(b),
            forall|x: int, y: int| 0 <= x < i && 0 <= y < q@.len() ==> !close(#[trigger] cells@[x], #[trigger] q@[y]),
        decreases cells@.len() - i,
    {
        let b = cells[i];
        let mut k: usize = 0;
        while k < q.len()
            invariant
                i < cells@.len(),
                b == cells@[i as int],
                k <= q@.len(),
                forall|b: R| #[trigger] cells@.contains(b) <==> a.has(b),
                forall|x: int, y: int| 0 <= x < i && 0 <= y < q@.len() ==> !close(#[trigger] cells@[x], #[trigger] q@[y]),
                forall|y: int| 0 <= y < k ==> !close(b, #[trigger] q@[y]),
            decreases q@.len() - k,
        {
            let c = q[k];
            if b.2 >= c.0 && b.0 <= c.2 && b.3 >= c.1 && b.1 <= c.3 {
                proof {
                    assert(cells@.contains(cells@[i as int]));
                    assert(q@.to_set().contains(q@[k as int]));
                    assert(a.has(b) && q@.to_set().contains(c) && close(b, c));
                }
                return true;
            }
            k += 1;
        }
        i += 1;
    }
    proof {
        if near(*a, q@.to_set()) {
            let (b, c) = choose|b: R, c: R| #[trigger] a.has(b) && #[trigger] q@.to_set().contains(c) && close(b, c);
            assert(cells@.contains(b));
            let x = choose|x: int| 0 <= x < cells@.len() && cells@[x] == b;
            let y = choose|y: int| 0 <= y < q@.len() && q@[y] == c;
            assert(!close(cells@[x], q@[y]));
        }
    }
    false
}

/// The first `n` regions that come near some box of a set, by number.
pub open spec fn near_upto(nodes: Seq<Region>, q: Set<R>, n: int) -> Seq<usize>
    decreases n,
{
    if n <= 0 {
        Seq::empty()
    } else {
        let s = near_upto(nodes, q, n - 1);
        if near(nodes[n - 1], q) { s.push((n - 1) as usize) } else { s }
    }
}

/// The regions that overlap `pol`, grown by one unit each way, in positive area: metal one unit away
/// counts, and metal that touches only a corner of the grown shape does not.
pub fn find_nodes_with_intersection(nodes: &[Region], pol: &Region) -> (r: Vec<usize>)
    requires
        pol.wf(),
        forall|k: int| 0 <= k < nodes@.len() ==> (#[trigger] nodes@[k]).wf(),
    ensures
        r@ == near_upto(nodes@, pol.boxes(), nodes@.len() as int),
{
    let q = pol.rects();
    assert(q@.to_set() =~= pol.boxes());
    let mut r: Vec<usize> = Vec::new();
    let mut k: usize = 0;
    while k < nodes.len()
        invariant
            k <= nodes@.len(),
            q@.to_set() == pol.boxes(),
            forall|k: int| 0 <= k < nodes@.len() ==> (#[trigger] nodes@[k]).wf(),
            r@ == near_upto(nodes@, pol.boxes(), k as int),
        decreases nodes@.len() - k,
    {
        if is_near(&nodes[k], q.as_slice()) {
            r.push(k);
        }
        k += 1;
    }
    r
}

// ---- polygons ----

/// Whether the edge from `a` to `b` stands upright, at or left of `x`, beside the rows from `y0` to
/// `y1`.
pub open spec fn crosses(a: (i32, i32), b: (i32, i32), x: i32, y0: i32, y1: i32) -> bool {
    &&& a.0 == b.0
    &&& a.0 <= x
    &&& (a.1 <= y0 && y1 <= b.1) || (b.1 <= y0 && y1 <= a.1)
}

/// The number of the first `n` edges of a polygon that a ray to the left from a cell crosses.
pub open spec fn crossings(pol: Seq<(i32, i32)>, n: int, x: i32, y0: i32, y1: i32) -> int
    decreases n,
{
    if n <= 0 {
        0
    } else {
        let next = if n == pol.len() { pol[0] } else { pol[n] };
        crossings(pol, n - 1, x, y0, y1) + (if crosses(pol[n - 1], next, x, y0, y1) { 1int } else { 0int })
    }
}

/// Whether a region is what a polygon encloses: its grid is that of the vertices, and it holds the
/// cells from which a ray to the left crosses the outline an odd number of times.
pub open spec fn encloses(pol: Seq<(i32, i32)>, r: Region) -> bool {
    &&& r.wf()
    &&& forall|x: i32| #[trigger] r.xs@.contains(x) <==> exists|k: int| 0 <= k < pol.len() && (#[trigger] pol[k]).0 == x
    &&& forall|y: i32| #[trigger] r.ys@.contains(y) <==> exists|k: int| 0 <= k < pol.len() && (#[trigger] pol[k]).1 == y
    &&& forall|i: int, j: int| 0 <= i < gaps(r.xs@.len() as int) && 0 <= j < gaps(r.ys@.len() as int) ==> (#[trigger] r.holds(i, j) <==> crossings(
        pol,
        pol.len() as int,
        r.xs@[i],
        r.ys@[j],
        r.ys@[j + 1],
    ) % 2 == 1)
}

fn odd_crossings(pol: &[(i32, i32)], x: i32, y0: i32, y1: i32) -> (r: bool)
    ensures
        r == (crossings(pol@, pol@.len() as int, x, y0, y1) % 2 == 1),
{
    let mut odd = false;
    let n: usize = pol.len();
    let mut k: usize = 0;
    while k < n
        invariant
            k <= n == pol@.len(),
            odd == (crossings(pol@, k as int, x, y0, y1) % 2 == 1),
        decreases n - k,
    {
        let a = pol[k];
        let b = if k + 1 == n { pol[0] } else { pol[k + 1] };
        if a.0 == b.0 && a.0 <= x && ((a.1 <= y0 && y1 <= b.1) || (b.1 <= y0 && y1 <= a.1)) {
            odd = !odd;
        }
        k += 1;
    }
    odd
}

/// The region that a polygon's points enclose, by the even-odd rule over its upright edges: a hole's
/// slit, two edges on one line in opposite directions, encloses nothing.
pub fn polygon_region(pol: &[(i32, i32)]) -> (r: Region)
    ensures
        encloses(pol@, r),
{
    let mut xs: Vec<i32> = Vec::new();
    let mut ys: Vec<i32> = Vec::new();
    let mut k: usize = 0;
    while k < pol.len()
        invariant
            k <= pol@.len(),
            ascending(xs@),
            ascending(ys@),
            forall|x: i32| #[trigger] xs@.contains(x) <==> exists|j: int| 0 <= j < k && (#[trigger] pol@[j]).0 == x,
            forall|y: i32| #[trigger] ys@.contains(y) <==> exists|j: int| 0 <= j < k && (#[trigger] pol@[j]).1 == y,
        decreases pol@.len() - k,
    {
        let p = pol[k];
        let ghost (xs0, ys0) = (xs@, ys@);
        put(&mut xs, p.0);
        put(&mut ys, p.1);
        proof {
            assert forall|x: i32| #[trigger] xs@.contains(x) <==> exists|j: int| 0 <= j < k + 1 && (#[trigger] pol@[j]).0 == x by {
                assert(xs0.contains(x) <==> exists|j: int| 0 <= j < k && (#[trigger] pol@[j]).0 == x);
                assert(pol@[k as int].0 == p.0);
            }
            assert forall|y: i32| #[trigger] ys@.contains(y) <==> exists|j: int| 0 <= j < k + 1 && (#[trigger] pol@[j]).1 == y by {
                assert(ys0.contains(y) <==> exists|j: int| 0 <= j < k && (#[trigger] pol@[j]).1 == y);
                assert(pol@[k as int].1 == p.1);
            }
        }
        k += 1;
    }
    let mut cells: Vec<Vec<bool>> = Vec::new();
    let mut i: usize = 0;
    while xs.len() > 0 && i < xs.len() - 1
        invariant
            i <= gaps(xs@.len() as int),
            cells@.len() == i,
            forall|a: int| 0 <= a < i ==> (#[trigger] cells@[a])@.len() == gaps(ys@.len() as int),
            forall|a: int, b: int| 0 <= a < i && 0 <= b < gaps(ys@.len() as int) ==> #[trigger] cells@[a]@[b] == (crossings(pol@, pol@.len() as int, xs@[a], ys@[b], ys@[b + 1]) % 2 == 1),
        decreases xs@.len() - i,
    {
        let mut col: Vec<bool> = Vec::new();
        let mut j: usize = 0;
        while ys.len() > 0 && j < ys.len() - 1
            invariant
                i < xs@.len(),
                j <= gaps(ys@.len() as int),
                col@.len() == j,
                forall|b: int| 0 <= b < j ==> #[trigger] col@[b] == (crossings(pol@, pol@.len() as int, xs@[i as int], ys@[b], ys@[b + 1]) % 2 == 1),
            decreases ys@.len() - j,
        {
            let inside = odd_crossings(pol, xs[i], ys[j], ys[j + 1]);
            col.push(inside);
            j += 1;
        }
        cells.push(col);
        i += 1;
    }
    Region { xs, ys, cells }
}

// ---- the layers ----

/// A layer of the technology: its routing level, 0 for a cut layer, and the layers beside it.
#[derive(Debug, Clone, Copy)]
pub struct TechLayer {
    pub routing_level: i32,
    pub lower: Option<usize>,
    pub upper: Option<usize>,
}

/// The layers of the technology, from the bottom up.
#[derive(Debug, Clone)]
pub struct TechLayers(pub Vec<TechLayer>);

/// The first of the first `n` layers of a routing level.
pub open spec fn first_of_level(layers: Seq<TechLayer>, level: i32, n: int) -> Option<usize>
    decreases n,
{
    if n <= 0 {
        None
    } else {
        match first_of_level(layers, level, n - 1) {
            Some(t) => Some(t),
            None => if layers[n - 1].routing_level == level { Some((n - 1) as usize) } else { None },
        }
    }
}

impl TechLayers {
    pub open spec fn wf(&self) -> bool {
        &&& forall|t: int| 0 <= t < self.0@.len() ==> ((#[trigger] self.0@[t]).lower matches Some(l) ==> l < t)
        &&& forall|t: int| 0 <= t < self.0@.len() ==> ((#[trigger] self.0@[t]).upper matches Some(u) ==> t < u < self.0@.len())
    }

    pub open spec fn routing_layer(&self, level: i32) -> Option<usize> {
        first_of_level(self.0@, level, self.0@.len() as int)
    }

    /// The layer of a routing level.
    pub fn find_routing_layer(&self, level: i32) -> (r: Option<usize>)
        ensures
            r == self.routing_layer(level),
            r matches Some(t) ==> t < self.0@.len() && self.0@[t as int].routing_level == level,
    {
        let mut k: usize = 0;
        while k < self.0.len()
            invariant
                k <= self.0@.len(),
                first_of_level(self.0@, level, k as int) is None,
            decreases self.0@.len() - k,
        {
            if self.0[k].routing_level == level {
                proof {
                    lemma_first_stays(self.0@, level, k + 1, self.0@.len() as int);
                }
                return Some(k);
            }
            k += 1;
        }
        None
    }
}

proof fn lemma_first_stays(layers: Seq<TechLayer>, level: i32, k: int, n: int)
    requires
        first_of_level(layers, level, k) is Some,
        k <= n,
    ensures
        first_of_level(layers, level, n) == first_of_level(layers, level, k),
    decreases n,
{
    if k < n {
        lemma_first_stays(layers, level, k, n - 1);
    }
}

/// A shape of a net's wire: a segment on a routing level, or a via's boxes by layer.
#[derive(Debug, Clone)]
pub enum Shape {
    Segment { level: i32, rect: Rect },
    Via { boxes: Vec<(usize, Rect)> },
}

pub open spec fn as_box(r: Rect) -> R {
    (r.x_min, r.y_min, r.x_max, r.y_max)
}

/// The boxes on a layer among the first `n` of a via.
pub open spec fn via_boxes(boxes: Seq<(usize, Rect)>, n: int, t: int) -> Seq<R>
    decreases n,
{
    if n <= 0 {
        Seq::empty()
    } else {
        let s = via_boxes(boxes, n - 1, t);
        if boxes[n - 1].0 == t { s.push(as_box(boxes[n - 1].1)) } else { s }
    }
}

/// The boxes that the first `n` shapes have on a layer.
pub open spec fn shape_boxes(shapes: Seq<Shape>, n: int, tech: TechLayers, t: int) -> Seq<R>
    decreases n,
{
    if n <= 0 {
        Seq::empty()
    } else {
        let s = shape_boxes(shapes, n - 1, tech, t);
        match shapes[n - 1] {
            Shape::Segment { level, rect } => if tech.routing_layer(level) == Some(t as usize) { s.push(as_box(rect)) } else { s },
            Shape::Via { boxes } => s + via_boxes(boxes@, boxes@.len() as int, t),
        }
    }
}

/// The first `n` pins' boxes on a layer.
pub open spec fn pin_boxes(pins: Seq<(usize, R)>, n: int, t: int) -> Seq<R>
    decreases n,
{
    if n <= 0 {
        Seq::empty()
    } else {
        let s = pin_boxes(pins, n - 1, t);
        if pins[n - 1].0 == t { s.push(pins[n - 1].1) } else { s }
    }
}

/// Whether a shape is on a routing level that no layer has.
pub open spec fn off_level(s: Shape, tech: TechLayers) -> bool {
    s matches Shape::Segment { level, .. } && tech.routing_layer(level) is None
}

fn boxes_on(shapes: &[Shape], tech: &TechLayers, t: usize) -> (r: Vec<R>)
    requires
        t < tech.0@.len(),
    ensures
        r@ == shape_boxes(shapes@, shapes@.len() as int, *tech, t as int),
{
    let mut r: Vec<R> = Vec::new();
    let mut k: usize = 0;
    while k < shapes.len()
        invariant
            k <= shapes@.len(),
            t < tech.0@.len(),
            r@ == shape_boxes(shapes@, k as int, *tech, t as int),
        decreases shapes@.len() - k,
    {
        match &shapes[k] {
            Shape::Segment { level, rect } => {
                let here = match tech.find_routing_layer(*level) {
                    Some(u) => u == t,
                    None => false,
                };
                if here {
                    r.push((rect.x_min, rect.y_min, rect.x_max, rect.y_max));
                }
            },
            Shape::Via { boxes } => {
                let ghost r0 = r@;
                let mut j: usize = 0;
                while j < boxes.len()
                    invariant
                        j <= boxes@.len(),
                        r@ == r0 + via_boxes(boxes@, j as int, t as int),
                    decreases boxes@.len() - j,
                {
                    let (u, b) = boxes[j];
                    if u == t {
                        r.push((b.x_min, b.y_min, b.x_max, b.y_max));
                        assert(r@ =~= r0 + via_boxes(boxes@, j + 1, t as int));
                    }
                    j += 1;
                }
            },
        }
        k += 1;
    }
    r
}

fn pins_on(pins: &[(usize, R)], t: usize) -> (r: Vec<R>)
    ensures
        r@ == pin_boxes(pins@, pins@.len() as int, t as int),
{
    let mut r: Vec<R> = Vec::new();
    let mut k: usize = 0;
    while k < pins.len()
        invariant
            k <= pins@.len(),
            r@ == pin_boxes(pins@, k as int, t as int),
        decreases pins@.len() - k,
    {
        let (u, b) = pins[k];
        if u == t {
            r.push(b);
        }
        k += 1;
    }
    r
}

/// Per layer, the metal of a net: every segment box and every via box on it, less every box of the
/// pins. A pin cuts the metal over it, so charge that reaches a gate counts on the pieces either
/// side.
///
/// `Err` with the first segment on a routing level that no layer has.
pub fn layer_regions(shapes: &[Shape], pins: &[(usize, R)], tech: &TechLayers) -> (r: Result<Vec<Region>, String>)
    ensures
        match r {
            Ok(regions) => {
                &&& forall|k: int| 0 <= k < shapes@.len() ==> !off_level(#[trigger] shapes@[k], *tech)
                &&& regions@.len() == tech.0@.len()
                &&& forall|t: int| 0 <= t < regions@.len() ==> is_cover(
                    shape_boxes(shapes@, shapes@.len() as int, *tech, t),
                    pin_boxes(pins@, pins@.len() as int, t),
                    #[trigger] regions@[t],
                )
            },
            Err(e) => exists|k: int| {
                &&& 0 <= k < shapes@.len()
                &&& off_level(#[trigger] shapes@[k], *tech)
                &&& forall|j: int| 0 <= j < k ==> !off_level(#[trigger] shapes@[j], *tech)
                &&& e@ == "no routing level "@ + dec(shapes@[k]->level as int)
            },
        },
{
    let mut k: usize = 0;
    while k < shapes.len()
        invariant
            k <= shapes@.len(),
            forall|j: int| 0 <= j < k ==> !off_level(#[trigger] shapes@[j], *tech),
        decreases shapes@.len() - k,
    {
        match &shapes[k] {
            Shape::Segment { level, .. } => {
                if tech.find_routing_layer(*level).is_none() {
                    let mut e = String::from_str("no routing level ");
                    push_int(&mut e, *level as i64);
                    assert(off_level(shapes@[k as int], *tech));
                    return Err(e);
                }
            },
            Shape::Via { .. } => {},
        }
        assert(!off_level(shapes@[k as int], *tech));
        k += 1;
    }
    let mut regions: Vec<Region> = Vec::new();
    let layers: usize = tech.0.len();
    let mut t: usize = 0;
    while t < layers
        invariant
            t <= layers == tech.0@.len(),
            regions@.len() == t,
            forall|u: int| 0 <= u < t ==> is_cover(
                shape_boxes(shapes@, shapes@.len() as int, *tech, u),
                pin_boxes(pins@, pins@.len() as int, u),
                #[trigger] regions@[u],
            ),
        decreases layers - t,
    {
        let add = boxes_on(shapes, tech, t);
        let sub = pins_on(pins, t);
        let region = Region::new(add.as_slice(), sub.as_slice());
        regions.push(region);
        t += 1;
    }
    Ok(regions)
}

// ---- the nodes ----

/// One polygon of one layer.
#[derive(Debug)]
pub struct GraphNode {
    pub id: usize,
    pub is_via: bool,
    pub pol: Vec<(i32, i32)>,
    /// The nodes of the layer below that this one sits on, by their places in that layer.
    pub low_adj: Vec<usize>,
    /// Which pins of gates this node's metal reaches, by their places in the list of pins.
    pub gates: Vec<usize>,
    /// What the polygon encloses.
    pub region: Region,
}

/// Per layer of the technology, its nodes in the order of its polygons.
pub type LayerNodes = Vec<Vec<GraphNode>>;

pub open spec fn regions_of(list: Seq<GraphNode>) -> Seq<Region> {
    list.map_values(|n: GraphNode| n.region)
}

/// The nodes of a list that come near some box of a set.
pub open spec fn near_nodes(list: Seq<GraphNode>, q: Set<R>) -> Seq<usize> {
    near_upto(regions_of(list), q, list.len() as int)
}

pub open spec fn is_cut(tech: TechLayers, t: int) -> bool {
    tech.0@[t].routing_level == 0
}

/// The vias below `t` that something on it sits on: those near it, of each of the first `c` layers
/// that is a cut layer under `t`.
pub open spec fn vias_under(nodes: Seq<Vec<GraphNode>>, tech: TechLayers, t: int, q: Set<R>, c: int) -> Seq<usize>
    decreases c,
{
    if c <= 0 {
        Seq::empty()
    } else {
        let s = vias_under(nodes, tech, t, q, c - 1);
        if is_cut(tech, c - 1) && tech.0@[c - 1].upper == Some(t as usize) { s + near_nodes(nodes[c - 1]@, q) } else { s }
    }
}

/// What a piece of layer `t` sits on: the vias under it, and for a via the pieces of the layer below.
pub open spec fn sits_on(nodes: Seq<Vec<GraphNode>>, tech: TechLayers, t: int, q: Set<R>) -> Seq<usize> {
    let vias = vias_under(nodes, tech, t, q, t);
    if is_cut(tech, t) {
        match tech.0@[t].lower {
            Some(l) => vias + near_nodes(nodes[l as int]@, q),
            None => vias,
        }
    } else {
        vias
    }
}

/// The number of polygons on the first `t` layers.
pub open spec fn polygons_below(polygons: Seq<Vec<Vec<(i32, i32)>>>, t: int) -> int
    decreases t,
{
    if t <= 0 { 0 } else { polygons_below(polygons, t - 1) + polygons[t - 1]@.len() }
}

/// Whether a node is that of the `k`-th polygon of layer `t`, before anything is said of links and
/// gates.
pub open spec fn is_node(n: GraphNode, polygons: Seq<Vec<Vec<(i32, i32)>>>, tech: TechLayers, t: int, k: int) -> bool {
    &&& n.id == polygons_below(polygons, t) + k
    &&& n.is_via == is_cut(tech, t)
    &&& n.pol@ == polygons[t]@[k]@
    &&& encloses(n.pol@, n.region)
    &&& n.gates@ == Seq::<usize>::empty()
}

fn push_near(list: &Vec<GraphNode>, q: &Vec<R>, out: &mut Vec<usize>)
    requires
        forall|k: int| 0 <= k < list@.len() ==> (#[trigger] list@[k]).region.wf(),
    ensures
        final(out)@ == old(out)@ + near_nodes(list@, q@.to_set()),
{
    let ghost out0 = out@;
    let mut k: usize = 0;
    while k < list.len()
        invariant
            k <= list@.len(),
            forall|k: int| 0 <= k < list@.len() ==> (#[trigger] list@[k]).region.wf(),
            out@ == out0 + near_upto(regions_of(list@), q@.to_set(), k as int),
        decreases list@.len() - k,
    {
        assert(regions_of(list@)[k as int] == list@[k as int].region);
        if is_near(&list[k].region, q.as_slice()) {
            out.push(k);
            assert(out@ =~= out0 + near_upto(regions_of(list@), q@.to_set(), k + 1));
        }
        k += 1;
    }
}

fn layer_list(polygons: &Vec<Vec<(i32, i32)>>, is_via: bool, from: usize) -> (list: Vec<GraphNode>)
    requires
        from + polygons@.len() <= usize::MAX,
    ensures
        list@.len() == polygons@.len(),
        forall|k: int| 0 <= k < list@.len() ==> {
            &&& (#[trigger] list@[k]).id == from + k
            &&& list@[k].is_via == is_via
            &&& list@[k].pol@ == polygons@[k]@
            &&& encloses(list@[k].pol@, list@[k].region)
            &&& list@[k].gates@ == Seq::<usize>::empty()
        },
{
    let mut list: Vec<GraphNode> = Vec::new();
    let mut k: usize = 0;
    while k < polygons.len()
        invariant
            k <= polygons@.len(),
            from + polygons@.len() <= usize::MAX,
            list@.len() == k,
            forall|k: int| 0 <= k < list@.len() ==> {
                &&& (#[trigger] list@[k]).id == from + k
                &&& list@[k].is_via == is_via
                &&& list@[k].pol@ == polygons@[k]@
                &&& encloses(list@[k].pol@, list@[k].region)
                &&& list@[k].gates@ == Seq::<usize>::empty()
            },
        decreases polygons@.len() - k,
    {
        let pol = copy_vec(&polygons[k]);
        let region = polygon_region(pol.as_slice());
        list.push(GraphNode { id: from + k, is_via, pol, low_adj: Vec::new(), gates: Vec::new(), region });
        k += 1;
    }
    list
}

/// What the piece sits on, as a list.
fn under(nodes: &LayerNodes, tech: &TechLayers, t: usize, region: &Region) -> (r: Vec<usize>)
    requires
        tech.wf(),
        nodes@.len() == tech.0@.len(),
        t < nodes@.len(),
        region.wf(),
        forall|u: int, k: int| 0 <= u < nodes@.len() && 0 <= k < nodes@[u]@.len() ==> (#[trigger] nodes@[u]@[k]).region.wf(),
    ensures
        r@ == sits_on(nodes@, *tech, t as int, region.boxes()),
{
    let q = region.rects();
    assert(q@.to_set() =~= region.boxes());
    let mut r: Vec<usize> = Vec::new();
    let mut c: usize = 0;
    while c < t
        invariant
            c <= t,
            nodes@.len() == tech.0@.len(),
            t < nodes@.len(),
            forall|u: int, k: int| 0 <= u < nodes@.len() && 0 <= k < nodes@[u]@.len() ==> (#[trigger] nodes@[u]@[k]).region.wf(),
            q@.to_set() == region.boxes(),
            r@ == vias_under(nodes@, *tech, t as int, region.boxes(), c as int),
        decreases t - c,
    {
        let l = tech.0[c];
        let here = match l.upper {
            Some(u) => u == t,
            None => false,
        };
        if l.routing_level == 0 && here {
            push_near(&nodes[c], &q, &mut r);
        }
        c += 1;
    }
    let l = tech.0[t];
    if l.routing_level == 0 {
        match l.lower {
            Some(below) => {
                push_near(&nodes[below], &q, &mut r);
            },
            None => {},
        }
    }
    r
}

/// The nodes of each layer's polygons, and the links through the vias: every node over a via lists
/// it, and the via lists every node under it.
pub fn build_layer_maps(polygons: &Vec<Vec<Vec<(i32, i32)>>>, tech: &TechLayers) -> (nodes: LayerNodes)
    requires
        tech.wf(),
        polygons@.len() == tech.0@.len(),
        polygons_below(polygons@, polygons@.len() as int) <= usize::MAX,
    ensures
        nodes@.len() == polygons@.len(),
        forall|t: int| 0 <= t < nodes@.len() ==> (#[trigger] nodes@[t])@.len() == polygons@[t]@.len(),
        forall|t: int, k: int| 0 <= t < nodes@.len() && 0 <= k < nodes@[t]@.len() ==> {
            &&& is_node(#[trigger] nodes@[t]@[k], polygons@, *tech, t, k)
            &&& nodes@[t]@[k].low_adj@ == sits_on(nodes@, *tech, t, nodes@[t]@[k].region.boxes())
        },
{
    let layers: usize = polygons.len();
    let mut nodes: LayerNodes = Vec::new();
    let mut next: usize = 0;
    let mut t: usize = 0;
    while t < layers
        invariant
            t <= layers == polygons@.len() == tech.0@.len(),
            polygons_below(polygons@, layers as int) <= usize::MAX,
            next == polygons_below(polygons@, t as int),
            nodes@.len() == t,
            forall|u: int| 0 <= u < t ==> (#[trigger] nodes@[u])@.len() == polygons@[u]@.len(),
            forall|u: int, k: int| 0 <= u < t && 0 <= k < nodes@[u]@.len() ==> is_node(#[trigger] nodes@[u]@[k], polygons@, *tech, u, k),
        decreases layers - t,
    {
        proof {
            lemma_polygons_grow(polygons@, t + 1, layers as int);
        }
        let list = layer_list(&polygons[t], tech.0[t].routing_level == 0, next);
        nodes.push(list);
        next += polygons[t].len();
        t += 1;
    }
    let ghost bare = nodes@;
    t = 0;
    while t < layers
        invariant
            t <= layers == polygons@.len() == tech.0@.len(),
            tech.wf(),
            bare.len() == layers,
            forall|u: int| 0 <= u < layers ==> (#[trigger] bare[u])@.len() == polygons@[u]@.len(),
            forall|u: int, k: int| 0 <= u < layers && 0 <= k < bare[u]@.len() ==> is_node(#[trigger] bare[u]@[k], polygons@, *tech, u, k),
            nodes@.len() == layers,
            forall|u: int| 0 <= u < layers ==> (#[trigger] nodes@[u])@.len() == bare[u]@.len(),
            forall|u: int, k: int| 0 <= u < layers && 0 <= k < bare[u]@.len() ==> relinked(bare[u]@[k], #[trigger] nodes@[u]@[k]),
            forall|u: int, k: int| 0 <= u < t && 0 <= k < bare[u]@.len() ==> (#[trigger] nodes@[u]@[k]).low_adj@ == sits_on(bare, *tech, u, nodes@[u]@[k].region.boxes()),
        decreases layers - t,
    {
        let mut k: usize = 0;
        while k < nodes[t].len()
            invariant
                t < layers == polygons@.len() == tech.0@.len(),
                tech.wf(),
                bare.len() == layers,
                forall|u: int| 0 <= u < layers ==> (#[trigger] bare[u])@.len() == polygons@[u]@.len(),
                forall|u: int, k: int| 0 <= u < layers && 0 <= k < bare[u]@.len() ==> is_node(#[trigger] bare[u]@[k], polygons@, *tech, u, k),
                nodes@.len() == layers,
                k <= bare[t as int]@.len(),
                forall|u: int| 0 <= u < layers ==> (#[trigger] nodes@[u])@.len() == bare[u]@.len(),
                forall|u: int, k: int| 0 <= u < layers && 0 <= k < bare[u]@.len() ==> relinked(bare[u]@[k], #[trigger] nodes@[u]@[k]),
                forall|u: int, k: int| 0 <= u < t && 0 <= k < bare[u]@.len() ==> (#[trigger] nodes@[u]@[k]).low_adj@ == sits_on(bare, *tech, u, nodes@[u]@[k].region.boxes()),
                forall|j: int| 0 <= j < k ==> (#[trigger] nodes@[t as int]@[j]).low_adj@ == sits_on(bare, *tech, t as int, nodes@[t as int]@[j].region.boxes()),
            decreases bare[t as int]@.len() - k,
        {
            proof {
                assert forall|u: int, j: int| 0 <= u < nodes@.len() && 0 <= j < nodes@[u]@.len() implies (#[trigger] nodes@[u]@[j]).region.wf() by {
                    assert(nodes@[u]@.len() == bare[u]@.len());
                    assert(relinked(bare[u]@[j], nodes@[u]@[j]));
                    assert(is_node(bare[u]@[j], polygons@, *tech, u, j));
                }
                lemma_same_regions(bare, nodes@, *tech, t as int, nodes@[t as int]@[k as int].region.boxes());
            }
            let adj = under(&nodes, tech, t, &nodes[t][k].region);
            let ghost before = nodes@;
            nodes[t][k].low_adj = adj;
            proof {
                assert forall|u: int, j: int| 0 <= u < layers && 0 <= j < bare[u]@.len() implies relinked(bare[u]@[j], #[trigger] nodes@[u]@[j]) by {
                    assert(relinked(bare[u]@[j], before[u]@[j]));
                }
            }
            k += 1;
        }
        t += 1;
    }
    proof {
        assert forall|t: int, k: int| 0 <= t < nodes@.len() && 0 <= k < nodes@[t]@.len() implies {
            &&& is_node(#[trigger] nodes@[t]@[k], polygons@, *tech, t, k)
            &&& nodes@[t]@[k].low_adj@ == sits_on(nodes@, *tech, t, nodes@[t]@[k].region.boxes())
        } by {
            assert(nodes@[t]@.len() == bare[t]@.len());
            assert(relinked(bare[t]@[k], nodes@[t]@[k]));
            assert(is_node(bare[t]@[k], polygons@, *tech, t, k));
            lemma_same_regions(bare, nodes@, *tech, t, nodes@[t]@[k].region.boxes());
        }
    }
    nodes
}

/// Whether two nodes differ at most in their links.
spec fn relinked(a: GraphNode, b: GraphNode) -> bool {
    a.id == b.id && a.is_via == b.is_via && a.pol == b.pol && a.gates == b.gates && a.region == b.region
}

proof fn lemma_polygons_grow(polygons: Seq<Vec<Vec<(i32, i32)>>>, a: int, b: int)
    requires
        0 <= a <= b,
    ensures
        polygons_below(polygons, a) <= polygons_below(polygons, b),
    decreases b,
{
    if a < b {
        lemma_polygons_grow(polygons, a, b - 1);
    }
}

proof fn lemma_same_regions(a: Seq<Vec<GraphNode>>, b: Seq<Vec<GraphNode>>, tech: TechLayers, t: int, q: Set<R>)
    requires
        a.len() == b.len(),
        tech.wf(),
        tech.0@.len() == a.len(),
        0 <= t < a.len(),
        forall|u: int| 0 <= u < a.len() ==> (#[trigger] a[u])@.len() == b[u]@.len(),
        forall|u: int, k: int| 0 <= u < a.len() && 0 <= k < a[u]@.len() ==> relinked(a[u]@[k], #[trigger] b[u]@[k]),
    ensures
        sits_on(a, tech, t, q) == sits_on(b, tech, t, q),
{
    assert forall|u: int| 0 <= u < a.len() implies regions_of(#[trigger] a[u]@) =~= regions_of(b[u]@) by {
        assert forall|k: int| 0 <= k < a[u]@.len() implies regions_of(a[u]@)[k] == regions_of(b[u]@)[k] by {
            assert(relinked(a[u]@[k], b[u]@[k]));
        }
    }
    lemma_same_vias(a, b, tech, t, q, t);
}

proof fn lemma_same_vias(a: Seq<Vec<GraphNode>>, b: Seq<Vec<GraphNode>>, tech: TechLayers, t: int, q: Set<R>, c: int)
    requires
        a.len() == b.len(),
        c <= a.len(),
        forall|u: int| 0 <= u < a.len() ==> (#[trigger] a[u])@.len() == b[u]@.len(),
        forall|u: int| 0 <= u < a.len() ==> regions_of((#[trigger] a[u])@) == regions_of(b[u]@),
    ensures
        vias_under(a, tech, t, q, c) == vias_under(b, tech, t, q, c),
    decreases c,
{
    if c > 0 {
        lemma_same_vias(a, b, tech, t, q, c - 1);
        assert(a[c - 1]@.len() == b[c - 1]@.len());
    }
}

// ---- the gates that each node reaches ----

/// An instance terminal of the net.
#[derive(Debug, Clone)]
pub struct PinFacts {
    /// The name that identifies the pin.
    pub name: String,
    /// Its boxes on routing layers, placed, by layer of the technology.
    pub boxes: Vec<(usize, R)>,
}

/// A box as a set of pieces: none where it has no area.
pub open spec fn pieces(r: R) -> Set<R> {
    Set::new(|b: R| b == r && r.0 < r.2 && r.1 < r.3)
}

/// The nodes of one layer that a box touches, by id.
pub open spec fn touched(list: Seq<GraphNode>, r: R) -> Seq<usize> {
    near_nodes(list, pieces(r)).map_values(|i: usize| list[i as int].id)
}

/// The nodes that a box touches on its layer and on the layers directly above and below it, by id.
pub open spec fn box_nbrs(nodes: Seq<Vec<GraphNode>>, tech: TechLayers, t: int, r: R) -> Seq<usize> {
    touched(nodes[t]@, r) + (match tech.0@[t].upper {
        Some(u) => touched(nodes[u as int]@, r),
        None => Seq::empty(),
    }) + (match tech.0@[t].lower {
        Some(l) => touched(nodes[l as int]@, r),
        None => Seq::empty(),
    })
}

/// The nodes that the first `n` boxes of a pin touch, by id.
pub open spec fn pin_nbrs(nodes: Seq<Vec<GraphNode>>, tech: TechLayers, boxes: Seq<(usize, R)>, n: int) -> Seq<usize>
    decreases n,
{
    if n <= 0 {
        Seq::empty()
    } else {
        pin_nbrs(nodes, tech, boxes, n - 1) + box_nbrs(nodes, tech, boxes[n - 1].0 as int, boxes[n - 1].1)
    }
}

/// The nodes that those of the first `n` pins touch that have a name, by id.
pub open spec fn named_nbrs(nodes: Seq<Vec<GraphNode>>, tech: TechLayers, pins: Seq<PinFacts>, name: Seq<char>, n: int) -> Seq<usize>
    decreases n,
{
    if n <= 0 {
        Seq::empty()
    } else {
        let s = named_nbrs(nodes, tech, pins, name, n - 1);
        if pins[n - 1].name@ == name { s + pin_nbrs(nodes, tech, pins[n - 1].boxes@, pins[n - 1].boxes@.len() as int) } else { s }
    }
}

/// The nodes that a pin touches, with every pin of its name, by id.
pub open spec fn nbrs(nodes: Seq<Vec<GraphNode>>, tech: TechLayers, pins: Seq<PinFacts>, p: int) -> Seq<usize> {
    named_nbrs(nodes, tech, pins, pins[p].name@, pins.len() as int)
}

/// Whether no earlier pin has the name.
pub open spec fn is_first(pins: Seq<PinFacts>, p: int) -> bool {
    forall|j: int| 0 <= j < p ==> (#[trigger] pins[j]).name@ != pins[p].name@
}

/// The layers from routing level 1 upwards, from `t` on.
pub open spec fn stages(tech: TechLayers, t: Option<usize>) -> Seq<usize>
    decreases
            match t {
                Some(t) => tech.0@.len() - t,
                None => 0int,
            },
{
    match t {
        Some(t) => if t < tech.0@.len() {
            match tech.0@[t as int].upper {
                Some(u) => if t < u <= tech.0@.len() { seq![t] + stages(tech, Some(u)) } else { seq![t] },
                None => seq![t],
            }
        } else {
            Seq::empty()
        },
        None => Seq::empty(),
    }
}

/// Whether `b` follows `a` in a list.
pub open spec fn chained(s: Seq<usize>, a: int, b: int) -> bool {
    exists|i: int| 0 <= i < s.len() - 1 && #[trigger] s[i] == a && s[i + 1] == b
}

/// Whether a node of layer `t` sits on one of layer `l`, by id.
pub open spec fn layer_link(nodes: Seq<Vec<GraphNode>>, t: int, l: int, a: int, b: int) -> bool {
    exists|n: int, m: int| {
        &&& 0 <= n < nodes[t]@.len()
        &&& 0 <= m < nodes[t]@[n].low_adj@.len()
        &&& nodes[t]@[n].id == a
        &&& nodes[l]@[(#[trigger] nodes[t]@[n].low_adj@[m]) as int].id == b
    }
}

/// Whether a pin has a box at or below a routing level.
pub open spec fn reaches_down(boxes: Seq<(usize, R)>, tech: TechLayers, level: i32) -> bool {
    exists|k: int| 0 <= k < boxes.len() && tech.0@[(#[trigger] boxes[k]).0 as int].routing_level <= level
}

/// Whether a pin at or below a routing level joins two nodes.
pub open spec fn pin_link(nodes: Seq<Vec<GraphNode>>, tech: TechLayers, pins: Seq<PinFacts>, level: i32, a: int, b: int) -> bool {
    exists|p: int| 0 <= p < pins.len() && reaches_down((#[trigger] pins[p]).boxes@, tech, level) && chained(nbrs(nodes, tech, pins, p), a, b)
}

/// Whether the stage of layer `t` joins two nodes: through a pin whose layer is at or below the
/// routing layer beneath, or where a node of the layer sits on another.
pub open spec fn joins_at(nodes: Seq<Vec<GraphNode>>, tech: TechLayers, pins: Seq<PinFacts>, t: int, a: int, b: int) -> bool {
    match tech.0@[t].lower {
        Some(l) => {
            ||| layer_link(nodes, t, l as int, a, b)
            ||| !is_cut(tech, l as int) && pin_link(nodes, tech, pins, tech.0@[l as int].routing_level, a, b)
        },
        None => false,
    }
}

/// What the first `k` stages join.
pub open spec fn links_by(nodes: Seq<Vec<GraphNode>>, tech: TechLayers, pins: Seq<PinFacts>, order: Seq<usize>, k: int) -> Set<(int, int)> {
    Set::new(|e: (int, int)| exists|j: int| 0 <= j < k && joins_at(nodes, tech, pins, (#[trigger] order[j]) as int, e.0, e.1))
}

/// Whether links lead from a node to one of a list.
pub open spec fn reaches(links: Set<(int, int)>, id: int, s: Seq<usize>) -> bool {
    exists|i: int| 0 <= i < s.len() && linked(links, id, (#[trigger] s[i]) as int)
}

/// Those of the first `n` pins, each name once, whose metal a node is linked to.
pub open spec fn gate_list(nodes: Seq<Vec<GraphNode>>, tech: TechLayers, pins: Seq<PinFacts>, links: Set<(int, int)>, id: int, n: int) -> Seq<usize>
    decreases n,
{
    if n <= 0 {
        Seq::empty()
    } else {
        let s = gate_list(nodes, tech, pins, links, id, n - 1);
        if is_first(pins, n - 1) && reaches(links, id, nbrs(nodes, tech, pins, n - 1)) { s.push((n - 1) as usize) } else { s }
    }
}

/// The number of nodes on the first `t` layers.
pub open spec fn node_count(nodes: Seq<Vec<GraphNode>>, t: int) -> int
    decreases t,
{
    if t <= 0 { 0 } else { node_count(nodes, t - 1) + nodes[t - 1]@.len() }
}

/// Whether nodes and links are in range and no node has gates yet.
pub open spec fn nodes_ready(nodes: Seq<Vec<GraphNode>>, tech: TechLayers) -> bool {
    &&& tech.wf()
    &&& nodes.len() == tech.0@.len()
    &&& node_count(nodes, nodes.len() as int) <= usize::MAX
    &&& forall|t: int, k: int| 0 <= t < nodes.len() && 0 <= k < nodes[t]@.len() ==> {
        &&& (#[trigger] nodes[t]@[k]).id < node_count(nodes, nodes.len() as int)
        &&& nodes[t]@[k].region.wf()
        &&& nodes[t]@[k].gates@.len() == 0
    }
    &&& forall|t: int, k: int, m: int| 0 <= t < nodes.len() && 0 <= k < nodes[t]@.len() && 0 <= m < nodes[t]@[k].low_adj@.len() ==> (tech.0@[t].lower matches Some(l) ==> (#[trigger] nodes[t]@[k].low_adj@[m]) < nodes[l as int]@.len())
}

/// Whether every box of the pins is on a layer of the technology.
pub open spec fn pins_fit(pins: Seq<PinFacts>, tech: TechLayers) -> bool {
    forall|p: int, k: int| 0 <= p < pins.len() && 0 <= k < pins[p].boxes@.len() ==> (#[trigger] pins[p].boxes@[k]).0 < tech.0@.len()
}

/// Whether every id of a list is in range.
spec fn in_range(s: Seq<usize>, n: int) -> bool {
    forall|i: int| 0 <= i < s.len() ==> (#[trigger] s[i]) < n
}

proof fn lemma_near_in_range(regions: Seq<Region>, q: Set<R>, n: int)
    requires
        n <= regions.len(),
        n <= usize::MAX,
    ensures
        in_range(near_upto(regions, q, n), n),
    decreases n,
{
    if n > 0 {
        lemma_near_in_range(regions, q, n - 1);
    }
}

fn push_touched(list: &Vec<GraphNode>, r: R, out: &mut Vec<usize>, Ghost(n): Ghost<int>)
    requires
        forall|k: int| 0 <= k < list@.len() ==> (#[trigger] list@[k]).region.wf() && list@[k].id < n,
        in_range(old(out)@, n),
    ensures
        final(out)@ == old(out)@ + touched(list@, r),
        in_range(final(out)@, n),
{
    let mut q: Vec<R> = Vec::new();
    if r.0 < r.2 && r.1 < r.3 {
        q.push(r);
        assert(q@[0] == r);
    }
    assert(q@.to_set() =~= pieces(r));
    let mut places: Vec<usize> = Vec::new();
    push_near(list, &q, &mut places);
    assert(places@ =~= near_nodes(list@, pieces(r)));
    let total: usize = list.len();
    proof {
        lemma_near_in_range(regions_of(list@), pieces(r), total as int);
    }
    let ghost out0 = out@;
    let mut k: usize = 0;
    while k < places.len()
        invariant
            k <= places@.len(),
            in_range(places@, list@.len() as int),
            forall|k: int| 0 <= k < list@.len() ==> (#[trigger] list@[k]).region.wf() && list@[k].id < n,
            in_range(out@, n),
            out@ == out0 + places@.take(k as int).map_values(|i: usize| list@[i as int].id),
        decreases places@.len() - k,
    {
        out.push(list[places[k]].id);
        k += 1;
        assert(out@ =~= out0 + places@.take(k as int).map_values(|i: usize| list@[i as int].id));
    }
    assert(places@.take(k as int) =~= places@);
}

/// The nodes that a pin's own boxes touch.
fn own_nbrs(nodes: &LayerNodes, tech: &TechLayers, pin: &PinFacts) -> (s: Vec<usize>)
    requires
        nodes_ready(nodes@, *tech),
        forall|k: int| 0 <= k < pin.boxes@.len() ==> (#[trigger] pin.boxes@[k]).0 < tech.0@.len(),
    ensures
        s@ == pin_nbrs(nodes@, *tech, pin.boxes@, pin.boxes@.len() as int),
        in_range(s@, node_count(nodes@, nodes@.len() as int)),
{
    let ghost n = node_count(nodes@, nodes@.len() as int);
    let mut s: Vec<usize> = Vec::new();
    let mut k: usize = 0;
    while k < pin.boxes.len()
        invariant
            k <= pin.boxes@.len(),
            nodes_ready(nodes@, *tech),
            n == node_count(nodes@, nodes@.len() as int),
            forall|k: int| 0 <= k < pin.boxes@.len() ==> (#[trigger] pin.boxes@[k]).0 < tech.0@.len(),
            s@ == pin_nbrs(nodes@, *tech, pin.boxes@, k as int),
            in_range(s@, n),
        decreases pin.boxes@.len() - k,
    {
        let (t, r) = pin.boxes[k];
        let ghost s0 = s@;
        assert(pin.boxes@[k as int].0 < tech.0@.len());
        let l = tech.0[t];
        push_touched(&nodes[t], r, &mut s, Ghost(n));
        match l.upper {
            Some(u) => {
                push_touched(&nodes[u], r, &mut s, Ghost(n));
            },
            None => {},
        }
        match l.lower {
            Some(d) => {
                push_touched(&nodes[d], r, &mut s, Ghost(n));
            },
            None => {},
        }
        assert(s@ =~= s0 + box_nbrs(nodes@, *tech, t as int, r));
        k += 1;
    }
    s
}

/// Every pin's neighbours, with those of every pin of its name.
fn all_nbrs(nodes: &LayerNodes, tech: &TechLayers, pins: &[PinFacts]) -> (r: Vec<Vec<usize>>)
    requires
        nodes_ready(nodes@, *tech),
        pins_fit(pins@, *tech),
    ensures
        r@.len() == pins@.len(),
        forall|p: int| 0 <= p < r@.len() ==> (#[trigger] r@[p])@ == nbrs(nodes@, *tech, pins@, p),
        forall|p: int| 0 <= p < r@.len() ==> in_range((#[trigger] r@[p])@, node_count(nodes@, nodes@.len() as int)),
{
    let ghost n = node_count(nodes@, nodes@.len() as int);
    let mut own: Vec<Vec<usize>> = Vec::new();
    let mut p: usize = 0;
    while p < pins.len()
        invariant
            p <= pins@.len(),
            nodes_ready(nodes@, *tech),
            pins_fit(pins@, *tech),
            n == node_count(nodes@, nodes@.len() as int),
            own@.len() == p,
            forall|q: int| 0 <= q < p ==> (#[trigger] own@[q])@ == pin_nbrs(nodes@, *tech, pins@[q].boxes@, pins@[q].boxes@.len() as int),
            forall|q: int| 0 <= q < p ==> in_range((#[trigger] own@[q])@, n),
        decreases pins@.len() - p,
    {
        let s = own_nbrs(nodes, tech, &pins[p]);
        own.push(s);
        p += 1;
    }
    let mut r: Vec<Vec<usize>> = Vec::new();
    p = 0;
    while p < pins.len()
        invariant
            p <= pins@.len(),
            own@.len() == pins@.len(),
            forall|q: int| 0 <= q < pins@.len() ==> (#[trigger] own@[q])@ == pin_nbrs(nodes@, *tech, pins@[q].boxes@, pins@[q].boxes@.len() as int),
            forall|q: int| 0 <= q < pins@.len() ==> in_range((#[trigger] own@[q])@, n),
            r@.len() == p,
            forall|q: int| 0 <= q < p ==> (#[trigger] r@[q])@ == nbrs(nodes@, *tech, pins@, q),
            forall|q: int| 0 <= q < p ==> in_range((#[trigger] r@[q])@, n),
        decreases pins@.len() - p,
    {
        let mut s: Vec<usize> = Vec::new();
        let mut q: usize = 0;
        while q < pins.len()
            invariant
                p < pins@.len(),
                q <= pins@.len(),
                own@.len() == pins@.len(),
                forall|q: int| 0 <= q < pins@.len() ==> (#[trigger] own@[q])@ == pin_nbrs(nodes@, *tech, pins@[q].boxes@, pins@[q].boxes@.len() as int),
                forall|q: int| 0 <= q < pins@.len() ==> in_range((#[trigger] own@[q])@, n),
                s@ == named_nbrs(nodes@, *tech, pins@, pins@[p as int].name@, q as int),
                in_range(s@, n),
            decreases pins@.len() - q,
        {
            if same_text(&pins[q].name, &pins[p].name) {
                let mut more = copy_vec(&own[q]);
                s.append(&mut more);
            }
            q += 1;
        }
        r.push(s);
        p += 1;
    }
    r
}

/// Joins each member of a list with the next.
fn join_chain(dsu: &mut Dsu, s: &Vec<usize>, Ghost(links): Ghost<Set<(int, int)>>)
    requires
        old(dsu).keeps(links),
        in_range(s@, old(dsu).size()),
    ensures
        final(dsu).size() == old(dsu).size(),
        final(dsu).keeps(links.union(Set::new(|e: (int, int)| chained(s@, e.0, e.1)))),
{
    let ghost mut now = links;
    assert(now =~= links.union(Set::new(|e: (int, int)| chained(s@.take(0), e.0, e.1))));
    let ghost size = dsu.size();
    let total: usize = s.len();
    let mut k: usize = 1;
    while k < total
        invariant
            1 <= k,
            total == s@.len(),
            k <= total || total == 0,
            dsu.size() == size,
            dsu.keeps(now),
            in_range(s@, size),
            forall|e: (int, int)| #[trigger] now.contains(e) <==> links.contains(e) || chained(s@.take(if k <= total { k as int } else { 0 }), e.0, e.1),
        decreases total - k,
    {
        let (a, b) = (s[k - 1], s[k]);
        dsu.union(a, b, Ghost(now));
        proof {
            let before = now;
            now = now.insert((a as int, b as int));
            let (t0, t1) = (s@.take(k as int), s@.take(k + 1));
            assert forall|e: (int, int)| #[trigger] now.contains(e) <==> links.contains(e) || chained(t1, e.0, e.1) by {
                assert(before.contains(e) <==> links.contains(e) || chained(t0, e.0, e.1));
                if chained(t0, e.0, e.1) {
                    let i = choose|i: int| 0 <= i < t0.len() - 1 && #[trigger] t0[i] == e.0 && t0[i + 1] == e.1;
                    assert(t1[i] == e.0 && t1[i + 1] == e.1);
                }
                if chained(t1, e.0, e.1) {
                    let i = choose|i: int| 0 <= i < t1.len() - 1 && #[trigger] t1[i] == e.0 && t1[i + 1] == e.1;
                    if i < k - 1 {
                        assert(t0[i] == e.0 && t0[i + 1] == e.1);
                    }
                }
                assert(t1[k - 1] == a && t1[k as int] == b);
            }
        }
        k += 1;
    }
    proof {
        assert(s@.take(if k <= total { k as int } else { 0 }) =~= s@);
        assert(now =~= links.union(Set::new(|e: (int, int)| chained(s@, e.0, e.1))));
    }
}

/// Whether one of the first `n` nodes of layer `t`, or one of the first `m` links of the next, joins
/// two nodes.
spec fn layer_link_upto(nodes: Seq<Vec<GraphNode>>, t: int, l: int, n: int, m: int, a: int, b: int) -> bool {
    exists|i: int, j: int| {
        &&& 0 <= i < nodes[t]@.len()
        &&& 0 <= j < nodes[t]@[i].low_adj@.len()
        &&& (i < n || (i == n && j < m))
        &&& nodes[t]@[i].id == a
        &&& nodes[l]@[(#[trigger] nodes[t]@[i].low_adj@[j]) as int].id == b
    }
}

/// Joins each node of a layer with those it sits on.
fn join_layer(dsu: &mut Dsu, nodes: &LayerNodes, tech: &TechLayers, t: usize, l: usize, Ghost(links): Ghost<Set<(int, int)>>)
    requires
        old(dsu).keeps(links),
        nodes_ready(nodes@, *tech),
        old(dsu).size() == node_count(nodes@, nodes@.len() as int),
        t < nodes@.len(),
        tech.0@[t as int].lower == Some(l),
    ensures
        final(dsu).size() == old(dsu).size(),
        final(dsu).keeps(links.union(Set::new(|e: (int, int)| layer_link(nodes@, t as int, l as int, e.0, e.1)))),
{
    let ghost mut now = links;
    let ghost size = dsu.size();
    let mut n: usize = 0;
    while n < nodes[t].len()
        invariant
            nodes_ready(nodes@, *tech),
            size == node_count(nodes@, nodes@.len() as int),
            dsu.size() == size,
            dsu.keeps(now),
            t < nodes@.len(),
            tech.0@[t as int].lower == Some(l),
            n <= nodes@[t as int]@.len(),
            forall|e: (int, int)| #[trigger] now.contains(e) <==> links.contains(e) || layer_link_upto(nodes@, t as int, l as int, n as int, 0, e.0, e.1),
        decreases nodes@[t as int]@.len() - n,
    {
        assert(tech.0@[t as int].lower matches Some(l) ==> l < t);
        let mut m: usize = 0;
        while m < nodes[t][n].low_adj.len()
            invariant
                nodes_ready(nodes@, *tech),
                size == node_count(nodes@, nodes@.len() as int),
                dsu.size() == size,
                dsu.keeps(now),
                t < nodes@.len(),
                l < t,
                tech.0@[t as int].lower == Some(l),
                n < nodes@[t as int]@.len(),
                m <= nodes@[t as int]@[n as int].low_adj@.len(),
                forall|e: (int, int)| #[trigger] now.contains(e) <==> links.contains(e) || layer_link_upto(nodes@, t as int, l as int, n as int, m as int, e.0, e.1),
            decreases nodes@[t as int]@[n as int].low_adj@.len() - m,
        {
            let low: usize = nodes[t][n].low_adj[m];
            assert(nodes@[t as int]@[n as int].low_adj@[m as int] < nodes@[l as int]@.len());
            let a: usize = nodes[t][n].id;
            let b: usize = nodes[l][low].id;
            assert(nodes@[t as int]@[n as int].id < size);
            assert(nodes@[l as int]@[low as int].id < size);
            dsu.union(a, b, Ghost(now));
            proof {
                let before = now;
                now = now.insert((a as int, b as int));
                assert forall|e: (int, int)| #[trigger] now.contains(e) <==> links.contains(e) || layer_link_upto(nodes@, t as int, l as int, n as int, m + 1, e.0, e.1) by {
                    assert(before.contains(e) <==> links.contains(e) || layer_link_upto(nodes@, t as int, l as int, n as int, m as int, e.0, e.1));
                    if e == (a as int, b as int) {
                        assert(nodes@[t as int]@[n as int].low_adj@[m as int] == low);
                    }
                }
            }
            m += 1;
        }
        proof {
            assert forall|e: (int, int)| #[trigger] now.contains(e) <==> links.contains(e) || layer_link_upto(nodes@, t as int, l as int, n + 1, 0, e.0, e.1) by {
                assert(layer_link_upto(nodes@, t as int, l as int, n as int, m as int, e.0, e.1) <==> layer_link_upto(nodes@, t as int, l as int, n + 1, 0, e.0, e.1));
            }
        }
        n += 1;
    }
    proof {
        assert forall|e: (int, int)| layer_link_upto(nodes@, t as int, l as int, n as int, 0, e.0, e.1) == layer_link(nodes@, t as int, l as int, e.0, e.1) by {}
        assert(now =~= links.union(Set::new(|e: (int, int)| layer_link(nodes@, t as int, l as int, e.0, e.1))));
    }
}

fn is_down(boxes: &Vec<(usize, R)>, tech: &TechLayers, level: i32) -> (r: bool)
    requires
        forall|k: int| 0 <= k < boxes@.len() ==> (#[trigger] boxes@[k]).0 < tech.0@.len(),
    ensures
        r == reaches_down(boxes@, *tech, level),
{
    let mut k: usize = 0;
    while k < boxes.len()
        invariant
            k <= boxes@.len(),
            forall|k: int| 0 <= k < boxes@.len() ==> (#[trigger] boxes@[k]).0 < tech.0@.len(),
            forall|j: int| 0 <= j < k ==> tech.0@[(#[trigger] boxes@[j]).0 as int].routing_level > level,
        decreases boxes@.len() - k,
    {
        let t: usize = boxes[k].0;
        assert(boxes@[k as int].0 < tech.0@.len());
        if tech.0[t].routing_level <= level {
            return true;
        }
        k += 1;
    }
    false
}

/// Joins the neighbours of every pin at or below a routing level.
fn join_pins(dsu: &mut Dsu, lists: &Vec<Vec<usize>>, nodes: &LayerNodes, tech: &TechLayers, pins: &[PinFacts], level: i32, Ghost(links): Ghost<Set<(int, int)>>)
    requires
        old(dsu).keeps(links),
        pins_fit(pins@, *tech),
        lists@.len() == pins@.len(),
        forall|p: int| 0 <= p < lists@.len() ==> (#[trigger] lists@[p])@ == nbrs(nodes@, *tech, pins@, p),
        forall|p: int| 0 <= p < lists@.len() ==> in_range((#[trigger] lists@[p])@, old(dsu).size()),
    ensures
        final(dsu).size() == old(dsu).size(),
        final(dsu).keeps(links.union(Set::new(|e: (int, int)| pin_link(nodes@, *tech, pins@, level, e.0, e.1)))),
{
    let ghost mut now = links;
    let ghost size = dsu.size();
    let mut p: usize = 0;
    while p < pins.len()
        invariant
            p <= pins@.len(),
            dsu.size() == size,
            dsu.keeps(now),
            pins_fit(pins@, *tech),
            lists@.len() == pins@.len(),
            forall|p: int| 0 <= p < lists@.len() ==> (#[trigger] lists@[p])@ == nbrs(nodes@, *tech, pins@, p),
            forall|p: int| 0 <= p < lists@.len() ==> in_range((#[trigger] lists@[p])@, size),
            forall|e: (int, int)| #[trigger] now.contains(e) <==> links.contains(e) || pin_link_upto(nodes@, *tech, pins@, level, p as int, e.0, e.1),
        decreases pins@.len() - p,
    {
        let ghost before = now;
        if is_down(&pins[p].boxes, tech, level) {
            join_chain(dsu, &lists[p], Ghost(now));
            proof {
                now = now.union(Set::new(|e: (int, int)| chained(lists@[p as int]@, e.0, e.1)));
            }
        }
        proof {
            assert forall|e: (int, int)| #[trigger] now.contains(e) <==> links.contains(e) || pin_link_upto(nodes@, *tech, pins@, level, p + 1, e.0, e.1) by {
                assert(before.contains(e) <==> links.contains(e) || pin_link_upto(nodes@, *tech, pins@, level, p as int, e.0, e.1));
                if reaches_down(pins@[p as int].boxes@, *tech, level) && chained(nbrs(nodes@, *tech, pins@, p as int), e.0, e.1) {
                    assert(pin_link_upto(nodes@, *tech, pins@, level, p + 1, e.0, e.1));
                }
                if pin_link_upto(nodes@, *tech, pins@, level, p as int, e.0, e.1) {
                    let q = choose|q: int| 0 <= q < p && reaches_down((#[trigger] pins@[q]).boxes@, *tech, level) && chained(nbrs(nodes@, *tech, pins@, q), e.0, e.1);
                    assert(reaches_down(pins@[q].boxes@, *tech, level));
                }
            }
        }
        p += 1;
    }
    proof {
        assert(now =~= links.union(Set::new(|e: (int, int)| pin_link(nodes@, *tech, pins@, level, e.0, e.1))));
    }
}

/// Whether one of the first `n` pins, at or below a routing level, joins two nodes.
spec fn pin_link_upto(nodes: Seq<Vec<GraphNode>>, tech: TechLayers, pins: Seq<PinFacts>, level: i32, n: int, a: int, b: int) -> bool {
    exists|p: int| 0 <= p < n && reaches_down((#[trigger] pins[p]).boxes@, tech, level) && chained(nbrs(nodes, tech, pins, p), a, b)
}

/// Whether a node is linked to one of a list.
fn reaches_any(dsu: &mut Dsu, id: usize, s: &Vec<usize>, Ghost(links): Ghost<Set<(int, int)>>) -> (r: bool)
    requires
        old(dsu).keeps(links),
        id < old(dsu).size(),
        in_range(s@, old(dsu).size()),
    ensures
        final(dsu).size() == old(dsu).size(),
        final(dsu).keeps(links),
        r == reaches(links, id as int, s@),
{
    let ghost size = dsu.size();
    let mut k: usize = 0;
    while k < s.len()
        invariant
            k <= s@.len(),
            dsu.size() == size == old(dsu).size(),
            dsu.keeps(links),
            id < size,
            in_range(s@, size),
            forall|j: int| 0 <= j < k ==> !linked(links, id as int, (#[trigger] s@[j]) as int),
        decreases s@.len() - k,
    {
        let b: usize = s[k];
        let ghost d0 = *dsu;
        let ra: usize = dsu.find(id);
        let rb: usize = dsu.find(b);
        assert(d0.chief(id as int) == d0.chief(b as int) <==> linked(links, id as int, b as int));
        if ra == rb {
            assert(linked(links, id as int, s@[k as int] as int));
            return true;
        }
        k += 1;
    }
    false
}

fn gates_at(dsu: &mut Dsu, id: usize, lists: &Vec<Vec<usize>>, first: &Vec<bool>, nodes: &LayerNodes, tech: &TechLayers, pins: &[PinFacts], Ghost(links): Ghost<Set<(int, int)>>) -> (r: Vec<usize>)
    requires
        old(dsu).keeps(links),
        id < old(dsu).size(),
        lists@.len() == pins@.len(),
        first@.len() == pins@.len(),
        forall|p: int| 0 <= p < first@.len() ==> #[trigger] first@[p] == is_first(pins@, p),
        forall|p: int| 0 <= p < lists@.len() ==> (#[trigger] lists@[p])@ == nbrs(nodes@, *tech, pins@, p),
        forall|p: int| 0 <= p < lists@.len() ==> in_range((#[trigger] lists@[p])@, old(dsu).size()),
    ensures
        final(dsu).size() == old(dsu).size(),
        final(dsu).keeps(links),
        r@ == gate_list(nodes@, *tech, pins@, links, id as int, pins@.len() as int),
{
    let ghost size = dsu.size();
    let mut r: Vec<usize> = Vec::new();
    let mut p: usize = 0;
    while p < pins.len()
        invariant
            p <= pins@.len(),
            dsu.size() == size,
            dsu.keeps(links),
            id < size,
            lists@.len() == pins@.len(),
            first@.len() == pins@.len(),
            forall|p: int| 0 <= p < first@.len() ==> #[trigger] first@[p] == is_first(pins@, p),
            forall|p: int| 0 <= p < lists@.len() ==> (#[trigger] lists@[p])@ == nbrs(nodes@, *tech, pins@, p),
            forall|p: int| 0 <= p < lists@.len() ==> in_range((#[trigger] lists@[p])@, size),
            r@ == gate_list(nodes@, *tech, pins@, links, id as int, p as int),
        decreases pins@.len() - p,
    {
        assert(lists@[p as int]@ == nbrs(nodes@, *tech, pins@, p as int));
        assert(first@[p as int] == is_first(pins@, p as int));
        if first[p] {
            if reaches_any(dsu, id, &lists[p], Ghost(links)) {
                r.push(p);
            }
        }
        p += 1;
    }
    r
}

fn first_names(pins: &[PinFacts]) -> (r: Vec<bool>)
    ensures
        r@.len() == pins@.len(),
        forall|p: int| 0 <= p < r@.len() ==> #[trigger] r@[p] == is_first(pins@, p),
{
    let mut r: Vec<bool> = Vec::new();
    let mut p: usize = 0;
    while p < pins.len()
        invariant
            p <= pins@.len(),
            r@.len() == p,
            forall|p: int| 0 <= p < r@.len() ==> #[trigger] r@[p] == is_first(pins@, p),
        decreases pins@.len() - p,
    {
        let mut first = true;
        let mut j: usize = 0;
        while j < p
            invariant
                j <= p < pins@.len(),
                first == (forall|i: int| 0 <= i < j ==> (#[trigger] pins@[i]).name@ != pins@[p as int].name@),
            decreases p - j,
        {
            if same_text(&pins[j].name, &pins[p].name) {
                assert(pins@[j as int].name@ == pins@[p as int].name@);
                first = false;
            }
            j += 1;
        }
        r.push(first);
        p += 1;
    }
    r
}

/// The layers from `t` on, upwards.
fn layer_order(tech: &TechLayers, t: Option<usize>) -> (r: Vec<usize>)
    requires
        tech.wf(),
        t matches Some(t) ==> t < tech.0@.len(),
    ensures
        r@ == stages(*tech, t),
{
    let mut r: Vec<usize> = Vec::new();
    let mut at: Option<usize> = t;
    let mut more = true;
    while more
        invariant
            tech.wf(),
            at matches Some(t) ==> t < tech.0@.len(),
            !more ==> r@ == stages(*tech, t),
            more ==> r@ + stages(*tech, at) == stages(*tech, t),
        decreases
            if more { 1 + (match at {
                Some(t) => tech.0@.len() - t,
                None => 0int,
            }) } else { 0 },
    {
        match at {
            Some(u) => {
                let ghost r0 = r@;
                r.push(u);
                let up = tech.0[u].upper;
                match up {
                    Some(v) => {
                        assert(r0 + stages(*tech, Some(u)) =~= r@ + stages(*tech, up));
                        at = up;
                    },
                    None => {
                        assert(r@ =~= r0 + stages(*tech, Some(u)));
                        more = false;
                    },
                }
            },
            None => {
                assert(r@ =~= r@ + stages(*tech, at));
                more = false;
            },
        }
    }
    r
}

proof fn lemma_stages(tech: TechLayers, t: Option<usize>)
    requires
        tech.wf(),
        t matches Some(t) ==> t < tech.0@.len(),
    ensures
        forall|j: int| 0 <= j < stages(tech, t).len() ==> (#[trigger] stages(tech, t)[j]) < tech.0@.len() && t is Some && t->0 <= stages(tech, t)[j],
        forall|i: int, j: int| 0 <= i < j < stages(tech, t).len() ==> #[trigger] stages(tech, t)[i] < #[trigger] stages(tech, t)[j],
    decreases
            match t {
                Some(t) => tech.0@.len() - t,
                None => 0int,
            },
{
    match t {
        Some(t) => {
            match tech.0@[t as int].upper {
                Some(u) => {
                    lemma_stages(tech, Some(u));
                    let rest = stages(tech, Some(u));
                    let all = stages(tech, Some(t));
                    assert(all == seq![t] + rest);
                    assert forall|j: int| 0 <= j < all.len() implies #[trigger] all[j] == (if j == 0 { t } else { rest[j - 1] }) by {}
                },
                None => {},
            }
        },
        None => {},
    }
}

/// The gates stamped on a node of a layer: those linked to it once the layer is built, and none
/// where the layers from routing level 1 upwards leave the layer out.
pub open spec fn stamped(nodes: Seq<Vec<GraphNode>>, tech: TechLayers, pins: Seq<PinFacts>, t: int, id: int) -> Seq<usize> {
    let order = stages(tech, tech.routing_layer(1));
    if exists|j: int| 0 <= j < order.len() && #[trigger] order[j] == t {
        let j = choose|j: int| 0 <= j < order.len() && #[trigger] order[j] == t;
        gate_list(nodes, tech, pins, links_by(nodes, tech, pins, order, j + 1), id, pins.len() as int)
    } else {
        Seq::empty()
    }
}

proof fn lemma_stamped(nodes: Seq<Vec<GraphNode>>, tech: TechLayers, pins: Seq<PinFacts>, j: int, id: int)
    requires
        tech.wf(),
        0 <= j < stages(tech, tech.routing_layer(1)).len(),
        tech.routing_layer(1) matches Some(t) ==> t < tech.0@.len(),
    ensures
        stamped(nodes, tech, pins, stages(tech, tech.routing_layer(1))[j] as int, id) == gate_list(
            nodes,
            tech,
            pins,
            links_by(nodes, tech, pins, stages(tech, tech.routing_layer(1)), j + 1),
            id,
            pins.len() as int,
        ),
{
    lemma_stages(tech, tech.routing_layer(1));
    let order = stages(tech, tech.routing_layer(1));
    let t = order[j] as int;
    assert(exists|i: int| 0 <= i < order.len() && #[trigger] order[i] == t);
    let i = choose|i: int| 0 <= i < order.len() && #[trigger] order[i] == t;
    if i < j {
        assert(order[i] < order[j]);
    } else if j < i {
        assert(order[j] < order[i]);
    }
}

fn count_nodes(nodes: &LayerNodes) -> (n: usize)
    requires
        node_count(nodes@, nodes@.len() as int) <= usize::MAX,
    ensures
        n == node_count(nodes@, nodes@.len() as int),
{
    let mut n: usize = 0;
    let mut t: usize = 0;
    while t < nodes.len()
        invariant
            t <= nodes@.len(),
            n == node_count(nodes@, t as int),
            node_count(nodes@, nodes@.len() as int) <= usize::MAX,
        decreases nodes@.len() - t,
    {
        proof {
            lemma_count_grows(nodes@, t + 1, nodes@.len() as int);
        }
        n += nodes[t].len();
        t += 1;
    }
    n
}

proof fn lemma_count_grows(nodes: Seq<Vec<GraphNode>>, a: int, b: int)
    requires
        0 <= a <= b,
    ensures
        node_count(nodes, a) <= node_count(nodes, b),
    decreases b,
{
    if a < b {
        lemma_count_grows(nodes, a, b - 1);
    }
}

/// The gates of every node of a layer.
fn layer_gates(dsu: &mut Dsu, t: usize, lists: &Vec<Vec<usize>>, first: &Vec<bool>, nodes: &LayerNodes, tech: &TechLayers, pins: &[PinFacts], Ghost(links): Ghost<Set<(int, int)>>) -> (rows: Vec<Vec<usize>>)
    requires
        old(dsu).keeps(links),
        nodes_ready(nodes@, *tech),
        old(dsu).size() == node_count(nodes@, nodes@.len() as int),
        t < nodes@.len(),
        lists@.len() == pins@.len(),
        first@.len() == pins@.len(),
        forall|p: int| 0 <= p < first@.len() ==> #[trigger] first@[p] == is_first(pins@, p),
        forall|p: int| 0 <= p < lists@.len() ==> (#[trigger] lists@[p])@ == nbrs(nodes@, *tech, pins@, p),
        forall|p: int| 0 <= p < lists@.len() ==> in_range((#[trigger] lists@[p])@, old(dsu).size()),
    ensures
        final(dsu).size() == old(dsu).size(),
        final(dsu).keeps(links),
        rows@.len() == nodes@[t as int]@.len(),
        forall|k: int| 0 <= k < rows@.len() ==> (#[trigger] rows@[k])@ == gate_list(nodes@, *tech, pins@, links, nodes@[t as int]@[k].id as int, pins@.len() as int),
{
    let ghost size = dsu.size();
    let mut rows: Vec<Vec<usize>> = Vec::new();
    let mut k: usize = 0;
    while k < nodes[t].len()
        invariant
            k <= nodes@[t as int]@.len(),
            t < nodes@.len(),
            nodes_ready(nodes@, *tech),
            dsu.size() == size == old(dsu).size(),
            size == node_count(nodes@, nodes@.len() as int),
            dsu.keeps(links),
            lists@.len() == pins@.len(),
            first@.len() == pins@.len(),
            forall|p: int| 0 <= p < first@.len() ==> #[trigger] first@[p] == is_first(pins@, p),
            forall|p: int| 0 <= p < lists@.len() ==> (#[trigger] lists@[p])@ == nbrs(nodes@, *tech, pins@, p),
            forall|p: int| 0 <= p < lists@.len() ==> in_range((#[trigger] lists@[p])@, size),
            rows@.len() == k,
            forall|k: int| 0 <= k < rows@.len() ==> (#[trigger] rows@[k])@ == gate_list(nodes@, *tech, pins@, links, nodes@[t as int]@[k].id as int, pins@.len() as int),
        decreases nodes@[t as int]@.len() - k,
    {
        let id: usize = nodes[t][k].id;
        assert(nodes@[t as int]@[k as int].id < size);
        let g = gates_at(dsu, id, lists, first, nodes, tech, pins, Ghost(links));
        rows.push(g);
        k += 1;
    }
    rows
}

/// The gates of every node, by layer.
fn gate_table(nodes: &LayerNodes, pins: &[PinFacts], tech: &TechLayers) -> (table: Vec<Vec<Vec<usize>>>)
    requires
        nodes_ready(nodes@, *tech),
        pins_fit(pins@, *tech),
    ensures
        table@.len() == nodes@.len(),
        forall|t: int| 0 <= t < nodes@.len() ==> (#[trigger] table@[t])@.len() == nodes@[t]@.len(),
        forall|t: int, k: int| 0 <= t < nodes@.len() && 0 <= k < nodes@[t]@.len() ==> (#[trigger] table@[t]@[k])@ == stamped(nodes@, *tech, pins@, t, nodes@[t]@[k].id as int),
{
    let lists = all_nbrs(nodes, tech, pins);
    let first = first_names(pins);
    let count: usize = count_nodes(nodes);
    let from = tech.find_routing_layer(1);
    let order = layer_order(tech, from);
    proof {
        lemma_stages(*tech, from);
    }
    let mut table: Vec<Vec<Vec<usize>>> = Vec::new();
    let mut t: usize = 0;
    while t < nodes.len()
        invariant
            t <= nodes@.len(),
            table@.len() == t,
            forall|u: int| 0 <= u < t ==> (#[trigger] table@[u])@.len() == nodes@[u]@.len(),
            forall|u: int, k: int| 0 <= u < t && 0 <= k < nodes@[u]@.len() ==> (#[trigger] table@[u]@[k])@ == Seq::<usize>::empty(),
        decreases nodes@.len() - t,
    {
        let mut rows: Vec<Vec<usize>> = Vec::new();
        let mut k: usize = 0;
        while k < nodes[t].len()
            invariant
                t < nodes@.len(),
                k <= nodes@[t as int]@.len(),
                rows@.len() == k,
                forall|k: int| 0 <= k < rows@.len() ==> (#[trigger] rows@[k])@ == Seq::<usize>::empty(),
            decreases nodes@[t as int]@.len() - k,
        {
            rows.push(Vec::new());
            k += 1;
        }
        table.push(rows);
        t += 1;
    }
    let mut dsu = Dsu::new(count);
    let ghost mut links: Set<(int, int)> = Set::empty();
    assert(links =~= links_by(nodes@, *tech, pins@, order@, 0));
    let mut j: usize = 0;
    while j < order.len()
        invariant
            j <= order@.len(),
            nodes_ready(nodes@, *tech),
            pins_fit(pins@, *tech),
            from == tech.routing_layer(1),
            from matches Some(t) ==> t < tech.0@.len(),
            order@ == stages(*tech, from),
            forall|i: int| 0 <= i < order@.len() ==> (#[trigger] order@[i]) < tech.0@.len(),
            forall|a: int, b: int| 0 <= a < b < order@.len() ==> #[trigger] order@[a] < #[trigger] order@[b],
            dsu.size() == node_count(nodes@, nodes@.len() as int),
            dsu.keeps(links),
            links == links_by(nodes@, *tech, pins@, order@, j as int),
            lists@.len() == pins@.len(),
            first@.len() == pins@.len(),
            forall|p: int| 0 <= p < first@.len() ==> #[trigger] first@[p] == is_first(pins@, p),
            forall|p: int| 0 <= p < lists@.len() ==> (#[trigger] lists@[p])@ == nbrs(nodes@, *tech, pins@, p),
            forall|p: int| 0 <= p < lists@.len() ==> in_range((#[trigger] lists@[p])@, node_count(nodes@, nodes@.len() as int)),
            table@.len() == nodes@.len(),
            forall|t: int| 0 <= t < nodes@.len() ==> (#[trigger] table@[t])@.len() == nodes@[t]@.len(),
            forall|t: int, k: int| 0 <= t < nodes@.len() && 0 <= k < nodes@[t]@.len() ==> (#[trigger] table@[t]@[k])@ == (if exists|i: int| 0 <= i < j && #[trigger] order@[i] == t {
                stamped(nodes@, *tech, pins@, t, nodes@[t]@[k].id as int)
            } else {
                Seq::empty()
            }),
        decreases order@.len() - j,
    {
        let t: usize = order[j];
        let ghost before = links;
        match tech.0[t].lower {
            Some(l) => {
                let level: i32 = tech.0[l].routing_level;
                if level != 0 {
                    join_pins(&mut dsu, &lists, nodes, tech, pins, level, Ghost(links));
                    proof {
                        links = links.union(Set::new(|e: (int, int)| pin_link(nodes@, *tech, pins@, level, e.0, e.1)));
                    }
                }
                join_layer(&mut dsu, nodes, tech, t, l, Ghost(links));
                proof {
                    links = links.union(Set::new(|e: (int, int)| layer_link(nodes@, t as int, l as int, e.0, e.1)));
                }
            },
            None => {},
        }
        proof {
            let next = links_by(nodes@, *tech, pins@, order@, j + 1);
            assert forall|e: (int, int)| links.contains(e) <==> next.contains(e) by {
                assert(links.contains(e) <==> before.contains(e) || joins_at(nodes@, *tech, pins@, t as int, e.0, e.1));
                if before.contains(e) {
                    let i = choose|i: int| 0 <= i < j && joins_at(nodes@, *tech, pins@, (#[trigger] order@[i]) as int, e.0, e.1);
                    assert(joins_at(nodes@, *tech, pins@, order@[i] as int, e.0, e.1));
                }
                if joins_at(nodes@, *tech, pins@, t as int, e.0, e.1) {
                    assert(joins_at(nodes@, *tech, pins@, order@[j as int] as int, e.0, e.1));
                }
            }
            assert(links =~= next);
        }
        let rows = layer_gates(&mut dsu, t, &lists, &first, nodes, tech, pins, Ghost(links));
        let ghost table0 = table@;
        table[t] = rows;
        proof {
            assert forall|u: int, k: int| 0 <= u < nodes@.len() && 0 <= k < nodes@[u]@.len() implies (#[trigger] table@[u]@[k])@ == (if exists|i: int| 0 <= i < j + 1 && #[trigger] order@[i] == u {
                stamped(nodes@, *tech, pins@, u, nodes@[u]@[k].id as int)
            } else {
                Seq::empty()
            }) by {
                if u == t {
                    lemma_stamped(nodes@, *tech, pins@, j as int, nodes@[u]@[k].id as int);
                    assert(order@[j as int] == u);
                } else {
                    assert(table@[u] == table0[u]);
                    assert(table0[u]@[k]@ == (if exists|i: int| 0 <= i < j && #[trigger] order@[i] == u {
                        stamped(nodes@, *tech, pins@, u, nodes@[u]@[k].id as int)
                    } else {
                        Seq::empty()
                    }));
                }
            }
        }
        j += 1;
    }
    table
}

/// Stamps each node with pins of gates that its metal reaches, as the layers are built.
///
/// Each pin box finds the nodes it touches on its own layer and on the layers directly above and
/// below it. The layers are then walked upwards from routing level 1. At each of them, every pin
/// whose layer is at or below the routing layer beneath joins its nodes, and the layer's nodes join
/// those they sit on; only then is each node of the layer stamped with the pins linked to it. So a
/// node gets the gates that metal at and below its own layer connects to it, and none that metal
/// added higher up does.
pub fn save_gates(nodes: &mut LayerNodes, pins: &[PinFacts], tech: &TechLayers)
    requires
        nodes_ready(old(nodes)@, *tech),
        pins_fit(pins@, *tech),
    ensures
        final(nodes)@.len() == old(nodes)@.len(),
        forall|t: int| 0 <= t < old(nodes)@.len() ==> (#[trigger] final(nodes)@[t])@.len() == old(nodes)@[t]@.len(),
        forall|t: int, k: int| 0 <= t < old(nodes)@.len() && 0 <= k < old(nodes)@[t]@.len() ==> {
            &&& (#[trigger] final(nodes)@[t]@[k]).gates@ == stamped(old(nodes)@, *tech, pins@, t, old(nodes)@[t]@[k].id as int)
            &&& final(nodes)@[t]@[k] == (GraphNode { gates: final(nodes)@[t]@[k].gates, ..old(nodes)@[t]@[k] })
        },
{
    let mut table = gate_table(nodes, pins, tech);
    let ghost n0 = nodes@;
    let ghost tab = table@;
    let mut t: usize = nodes.len();
    while t > 0
        invariant
            t <= n0.len(),
            nodes@.len() == n0.len(),
            table@ == tab.take(t as int),
            tab.len() == n0.len(),
            forall|u: int| 0 <= u < n0.len() ==> (#[trigger] tab[u])@.len() == n0[u]@.len(),
            forall|u: int, k: int| 0 <= u < n0.len() && 0 <= k < n0[u]@.len() ==> (#[trigger] tab[u]@[k])@ == stamped(n0, *tech, pins@, u, n0[u]@[k].id as int),
            forall|u: int| 0 <= u < t ==> (#[trigger] nodes@[u]) == n0[u],
            forall|u: int| 0 <= u < n0.len() ==> (#[trigger] nodes@[u])@.len() == n0[u]@.len(),
            forall|u: int, k: int| t <= u < n0.len() && 0 <= k < n0[u]@.len() ==> {
                &&& (#[trigger] nodes@[u]@[k]).gates@ == stamped(n0, *tech, pins@, u, n0[u]@[k].id as int)
                &&& nodes@[u]@[k] == (GraphNode { gates: nodes@[u]@[k].gates, ..n0[u]@[k] })
            },
        decreases t,
    {
        t -= 1;
        let mut rows = match table.pop() {
            Some(rows) => rows,
            None => Vec::new(),
        };
        assert(rows == tab[t as int]);
        assert(table@ =~= tab.take(t as int));
        let mut k: usize = rows.len();
        while k > 0
            invariant
                t < n0.len(),
                nodes@.len() == n0.len(),
                k <= n0[t as int]@.len() == tab[t as int]@.len(),
                rows@ == tab[t as int]@.take(k as int),
                tab.len() == n0.len(),
                forall|u: int, k: int| 0 <= u < n0.len() && 0 <= k < n0[u]@.len() ==> (#[trigger] tab[u]@[k])@ == stamped(n0, *tech, pins@, u, n0[u]@[k].id as int),
                forall|u: int| 0 <= u < t ==> (#[trigger] nodes@[u]) == n0[u],
                forall|u: int| 0 <= u < n0.len() ==> (#[trigger] nodes@[u])@.len() == n0[u]@.len(),
                forall|u: int, k: int| t < u < n0.len() && 0 <= k < n0[u]@.len() ==> {
                    &&& (#[trigger] nodes@[u]@[k]).gates@ == stamped(n0, *tech, pins@, u, n0[u]@[k].id as int)
                    &&& nodes@[u]@[k] == (GraphNode { gates: nodes@[u]@[k].gates, ..n0[u]@[k] })
                },
                forall|j: int| 0 <= j < k ==> #[trigger] nodes@[t as int]@[j] == n0[t as int]@[j],
                forall|j: int| k <= j < n0[t as int]@.len() ==> {
                    &&& (#[trigger] nodes@[t as int]@[j]).gates@ == stamped(n0, *tech, pins@, t as int, n0[t as int]@[j].id as int)
                    &&& nodes@[t as int]@[j] == (GraphNode { gates: nodes@[t as int]@[j].gates, ..n0[t as int]@[j] })
                },
            decreases k,
        {
            k -= 1;
            let g = match rows.pop() {
                Some(g) => g,
                None => Vec::new(),
            };
            assert(g == tab[t as int]@[k as int]);
            assert(rows@ =~= tab[t as int]@.take(k as int));
            let ghost before = nodes@;
            nodes[t][k].gates = g;
            proof {
                assert(nodes@[t as int]@[k as int] == (GraphNode { gates: g, ..before[t as int]@[k as int] }));
            }
        }
    }
}

/// Whether the layers above and below each other name each other.
pub open spec fn neighbours_agree(tech: TechLayers) -> bool {
    forall|c: int, t: int| 0 <= c < tech.0@.len() && 0 <= t < tech.0@.len() && (#[trigger] tech.0@[c]).upper == Some(t as usize) && (#[trigger] tech.0@[t]).lower is Some ==> tech.0@[t].lower == Some(c as usize)
}

/// The nodes built from polygons, where only routing layers sit on cut layers, are ready for the
/// gates.
pub proof fn built_nodes_are_ready(nodes: Seq<Vec<GraphNode>>, polygons: Seq<Vec<Vec<(i32, i32)>>>, tech: TechLayers)
    requires
        tech.wf(),
        neighbours_agree(tech),
        nodes.len() == polygons.len(),
        polygons.len() == tech.0@.len(),
        tech.0@.len() <= usize::MAX,
        polygons_below(polygons, polygons.len() as int) <= usize::MAX,
        forall|t: int| 0 <= t < nodes.len() ==> (#[trigger] nodes[t])@.len() == polygons[t]@.len(),
        forall|t: int, k: int| 0 <= t < nodes.len() && 0 <= k < nodes[t]@.len() ==> {
            &&& is_node(#[trigger] nodes[t]@[k], polygons, tech, t, k)
            &&& nodes[t]@[k].low_adj@ == sits_on(nodes, tech, t, nodes[t]@[k].region.boxes())
        },
    ensures
        nodes_ready(nodes, tech),
{
    let n = nodes.len() as int;
    lemma_counts_agree(nodes, polygons, n);
    assert forall|t: int, k: int| 0 <= t < nodes.len() && 0 <= k < nodes[t]@.len() implies {
        &&& (#[trigger] nodes[t]@[k]).id < node_count(nodes, nodes.len() as int)
        &&& nodes[t]@[k].region.wf()
        &&& nodes[t]@[k].gates@.len() == 0
    } by {
        assert(is_node(nodes[t]@[k], polygons, tech, t, k));
        assert(nodes[t]@.len() == polygons[t]@.len());
        lemma_polygons_grow(polygons, t + 1, n);
    }
    assert forall|t: int, k: int, m: int| 0 <= t < nodes.len() && 0 <= k < nodes[t]@.len() && 0 <= m < nodes[t]@[k].low_adj@.len() implies (tech.0@[t].lower matches Some(l) ==> (#[trigger] nodes[t]@[k].low_adj@[m]) < nodes[l as int]@.len()) by {
        let q = nodes[t]@[k].region.boxes();
        assert(nodes[t]@[k].low_adj@ == sits_on(nodes, tech, t, q));
        if tech.0@[t].lower is Some {
            let l = tech.0@[t].lower->0 as int;
            assert(nodes[l]@.len() == polygons[l]@.len());
            lemma_polygons_grow(polygons, l + 1, n);
            lemma_polygons_grow(polygons, 0, l);
            lemma_vias_in_range(nodes, tech, t, l, q, t);
            lemma_near_in_range(regions_of(nodes[l]@), q, nodes[l]@.len() as int);
        }
    }
}

proof fn lemma_counts_agree(nodes: Seq<Vec<GraphNode>>, polygons: Seq<Vec<Vec<(i32, i32)>>>, t: int)
    requires
        0 <= t <= nodes.len(),
        nodes.len() == polygons.len(),
        forall|t: int| 0 <= t < nodes.len() ==> (#[trigger] nodes[t])@.len() == polygons[t]@.len(),
    ensures
        node_count(nodes, t) == polygons_below(polygons, t),
    decreases t,
{
    if t > 0 {
        lemma_counts_agree(nodes, polygons, t - 1);
        assert(nodes[t - 1]@.len() == polygons[t - 1]@.len());
    }
}

proof fn lemma_vias_in_range(nodes: Seq<Vec<GraphNode>>, tech: TechLayers, t: int, l: int, q: Set<R>, c: int)
    requires
        neighbours_agree(tech),
        nodes.len() == tech.0@.len(),
        tech.0@.len() <= usize::MAX,
        0 <= t < nodes.len(),
        0 <= l < nodes.len(),
        c <= nodes.len(),
        tech.0@[t].lower == Some(l as usize),
        nodes[l]@.len() <= usize::MAX,
    ensures
        in_range(vias_under(nodes, tech, t, q, c), nodes[l]@.len() as int),
    decreases c,
{
    if c > 0 {
        lemma_vias_in_range(nodes, tech, t, l, q, c - 1);
        if is_cut(tech, c - 1) && tech.0@[c - 1].upper == Some(t as usize) {
            assert(tech.0@[t].lower is Some);
            assert(c - 1 == l);
            lemma_near_in_range(regions_of(nodes[l]@), q, nodes[l]@.len() as int);
        }
    }
}

// ---- pieces of metal that share a terminal ----

/// An instance terminal as the grouping reads it.
#[derive(Debug, Clone, Copy)]
pub struct GateFacts {
    /// The terminal's number in the database, which orders the terminals.
    pub id: u32,
    /// An input with gate area.
    pub is_valid: bool,
    /// Whether its cell is a diode, which a repair leaves out.
    pub is_antenna_cell: bool,
}

/// The nodes of one layer in groups: nodes that share a terminal are one piece of metal.
#[derive(Debug)]
pub struct LayerGroups {
    /// Per node, the node that stands for its group.
    pub group: Vec<usize>,
    /// Per node that stands for a group, whether the group reaches a valid gate.
    pub counts: Vec<bool>,
    /// Per terminal, the nodes that reach it, in order.
    pub nodes: Vec<Vec<usize>>,
}

/// A node, once for each of the first `m` pins of its list that belongs to a terminal.
pub open spec fn hits(pins: Seq<usize>, pin_gate: Seq<usize>, g: int, i: int, m: int) -> Seq<usize>
    decreases m,
{
    if m <= 0 {
        Seq::empty()
    } else {
        let s = hits(pins, pin_gate, g, i, m - 1);
        if pin_gate[pins[m - 1] as int] == g { s.push(i as usize) } else { s }
    }
}

/// Those of the first `n` nodes that reach a terminal.
pub open spec fn nodes_of(list: Seq<GraphNode>, pin_gate: Seq<usize>, g: int, n: int) -> Seq<usize>
    decreases n,
{
    if n <= 0 {
        Seq::empty()
    } else {
        nodes_of(list, pin_gate, g, n - 1) + hits(list[n - 1].gates@, pin_gate, g, n - 1, list[n - 1].gates@.len() as int)
    }
}

/// The nodes that reach a terminal, in order.
pub open spec fn terminal_nodes(list: Seq<GraphNode>, pin_gate: Seq<usize>, g: int) -> Seq<usize> {
    nodes_of(list, pin_gate, g, list.len() as int)
}

/// Whether one of the first `n` terminals bridges two nodes: the first that reaches it and another.
pub open spec fn bridged(list: Seq<GraphNode>, pin_gate: Seq<usize>, n: int, a: int, b: int) -> bool {
    exists|g: int, k: int| {
        &&& 0 <= g < n
        &&& 0 <= k < terminal_nodes(list, pin_gate, g).len()
        &&& terminal_nodes(list, pin_gate, g)[0] == a
        &&& #[trigger] terminal_nodes(list, pin_gate, g)[k] == b
    }
}

/// What the first `n` terminals bridge.
pub open spec fn bridges(list: Seq<GraphNode>, pin_gate: Seq<usize>, n: int) -> Set<(int, int)> {
    Set::new(|e: (int, int)| bridged(list, pin_gate, n, e.0, e.1))
}

/// Whether a node reaches a valid gate.
pub open spec fn has_gate(node: GraphNode, pin_gate: Seq<usize>, gates: Seq<GateFacts>) -> bool {
    exists|k: int| 0 <= k < node.gates@.len() && gates[pin_gate[(#[trigger] node.gates@[k]) as int] as int].is_valid
}

/// Whether the nodes' pins are in range of the list of pins, and those of the terminals.
pub open spec fn gates_fit(list: Seq<GraphNode>, pin_gate: Seq<usize>, gates: Seq<GateFacts>) -> bool {
    &&& forall|i: int, k: int| 0 <= i < list.len() && 0 <= k < list[i].gates@.len() ==> #[trigger] list[i].gates@[k] < pin_gate.len()
    &&& forall|p: int| 0 <= p < pin_gate.len() ==> #[trigger] pin_gate[p] < gates.len()
}

fn nodes_at(list: &Vec<GraphNode>, pin_gate: &Vec<usize>, gates: &[GateFacts], g: usize) -> (s: Vec<usize>)
    requires
        gates_fit(list@, pin_gate@, gates@),
    ensures
        s@ == terminal_nodes(list@, pin_gate@, g as int),
        in_range(s@, list@.len() as int),
{
    let mut s: Vec<usize> = Vec::new();
    let mut i: usize = 0;
    while i < list.len()
        invariant
            i <= list@.len(),
            gates_fit(list@, pin_gate@, gates@),
            s@ == nodes_of(list@, pin_gate@, g as int, i as int),
            in_range(s@, list@.len() as int),
        decreases list@.len() - i,
    {
        let ghost s0 = s@;
        let mut k: usize = 0;
        while k < list[i].gates.len()
            invariant
                i < list@.len(),
                k <= list@[i as int].gates@.len(),
                gates_fit(list@, pin_gate@, gates@),
                s@ == s0 + hits(list@[i as int].gates@, pin_gate@, g as int, i as int, k as int),
                in_range(s@, list@.len() as int),
            decreases list@[i as int].gates@.len() - k,
        {
            let p: usize = list[i].gates[k];
            assert(list@[i as int].gates@[k as int] < pin_gate@.len());
            if pin_gate[p] == g {
                s.push(i);
                assert(s@ =~= s0 + hits(list@[i as int].gates@, pin_gate@, g as int, i as int, k + 1));
            }
            k += 1;
        }
        i += 1;
    }
    s
}

fn node_has_gate(node: &GraphNode, pin_gate: &Vec<usize>, gates: &[GateFacts]) -> (r: bool)
    requires
        forall|k: int| 0 <= k < node.gates@.len() ==> #[trigger] node.gates@[k] < pin_gate@.len(),
        forall|p: int| 0 <= p < pin_gate@.len() ==> #[trigger] pin_gate@[p] < gates@.len(),
    ensures
        r == has_gate(*node, pin_gate@, gates@),
{
    let mut k: usize = 0;
    while k < node.gates.len()
        invariant
            k <= node.gates@.len(),
            forall|k: int| 0 <= k < node.gates@.len() ==> #[trigger] node.gates@[k] < pin_gate@.len(),
            forall|p: int| 0 <= p < pin_gate@.len() ==> #[trigger] pin_gate@[p] < gates@.len(),
            forall|j: int| 0 <= j < k ==> !gates@[pin_gate@[(#[trigger] node.gates@[j]) as int] as int].is_valid,
        decreases node.gates@.len() - k,
    {
        let p: usize = node.gates[k];
        assert(node.gates@[k as int] < pin_gate@.len());
        assert(pin_gate@[p as int] < gates@.len());
        if gates[pin_gate[p]].is_valid {
            return true;
        }
        k += 1;
    }
    false
}

/// Joins the first node of a list with each.
fn join_star(dsu: &mut Dsu, s: &Vec<usize>, Ghost(links): Ghost<Set<(int, int)>>)
    requires
        old(dsu).keeps(links),
        in_range(s@, old(dsu).size()),
    ensures
        final(dsu).size() == old(dsu).size(),
        final(dsu).keeps(links.union(Set::new(|e: (int, int)| s@.len() > 0 && s@[0] == e.0 && exists|k: int| 0 <= k < s@.len() && #[trigger] s@[k] == e.1))),
{
    let ghost mut now = links;
    let ghost size = dsu.size();
    let mut k: usize = 0;
    while k < s.len()
        invariant
            k <= s@.len(),
            dsu.size() == size == old(dsu).size(),
            dsu.keeps(now),
            in_range(s@, size),
            forall|e: (int, int)| #[trigger] now.contains(e) <==> links.contains(e) || (s@.len() > 0 && s@[0] == e.0 && exists|j: int| 0 <= j < k && #[trigger] s@[j] == e.1),
        decreases s@.len() - k,
    {
        let (a, b) = (s[0], s[k]);
        dsu.union(a, b, Ghost(now));
        proof {
            let before = now;
            now = now.insert((a as int, b as int));
            assert forall|e: (int, int)| #[trigger] now.contains(e) <==> links.contains(e) || (s@.len() > 0 && s@[0] == e.0 && exists|j: int| 0 <= j < k + 1 && #[trigger] s@[j] == e.1) by {
                assert(before.contains(e) <==> links.contains(e) || (s@.len() > 0 && s@[0] == e.0 && exists|j: int| 0 <= j < k && #[trigger] s@[j] == e.1));
                assert(s@[k as int] == b);
            }
        }
        k += 1;
    }
    proof {
        assert(now =~= links.union(Set::new(|e: (int, int)| s@.len() > 0 && s@[0] == e.0 && exists|k: int| 0 <= k < s@.len() && #[trigger] s@[k] == e.1)));
    }
}

/// The groups of one layer's nodes. Nodes that share a terminal are one piece of metal: the pin
/// bridges them. A group counts where any of its nodes reaches a valid gate.
pub fn layer_groups(list: &Vec<GraphNode>, pin_gate: &Vec<usize>, gates: &[GateFacts]) -> (r: LayerGroups)
    requires
        gates_fit(list@, pin_gate@, gates@),
    ensures
        r.group@.len() == list@.len(),
        r.counts@.len() == list@.len(),
        r.nodes@.len() == gates@.len(),
        forall|i: int| 0 <= i < list@.len() ==> (#[trigger] r.group@[i]) < list@.len() && r.group@[r.group@[i] as int] == r.group@[i],
        forall|i: int, j: int| 0 <= i < list@.len() && 0 <= j < list@.len() ==> (#[trigger] r.group@[i] == #[trigger] r.group@[j] <==> linked(bridges(list@, pin_gate@, gates@.len() as int), i, j)),
        forall|c: int| 0 <= c < list@.len() ==> (#[trigger] r.counts@[c] <==> exists|i: int| 0 <= i < list@.len() && #[trigger] r.group@[i] == c && has_gate(list@[i], pin_gate@, gates@)),
        forall|g: int| 0 <= g < gates@.len() ==> (#[trigger] r.nodes@[g])@ == terminal_nodes(list@, pin_gate@, g),
{
    let n: usize = list.len();
    let mut dsu = Dsu::new(n);
    let ghost mut links: Set<(int, int)> = Set::empty();
    assert(links =~= bridges(list@, pin_gate@, 0));
    let mut nodes: Vec<Vec<usize>> = Vec::new();
    let mut g: usize = 0;
    while g < gates.len()
        invariant
            g <= gates@.len(),
            n == list@.len(),
            gates_fit(list@, pin_gate@, gates@),
            dsu.size() == n,
            dsu.keeps(links),
            links == bridges(list@, pin_gate@, g as int),
            nodes@.len() == g,
            forall|h: int| 0 <= h < g ==> (#[trigger] nodes@[h])@ == terminal_nodes(list@, pin_gate@, h),
        decreases gates@.len() - g,
    {
        let s = nodes_at(list, pin_gate, gates, g);
        join_star(&mut dsu, &s, Ghost(links));
        proof {
            let before = links;
            links = links.union(Set::new(|e: (int, int)| s@.len() > 0 && s@[0] == e.0 && exists|k: int| 0 <= k < s@.len() && #[trigger] s@[k] == e.1));
            let next = bridges(list@, pin_gate@, g + 1);
            assert forall|e: (int, int)| links.contains(e) <==> next.contains(e) by {
                if next.contains(e) {
                    let (h, k) = choose|h: int, k: int| {
                        &&& 0 <= h < g + 1
                        &&& 0 <= k < terminal_nodes(list@, pin_gate@, h).len()
                        &&& terminal_nodes(list@, pin_gate@, h)[0] == e.0
                        &&& #[trigger] terminal_nodes(list@, pin_gate@, h)[k] == e.1
                    };
                    if h < g {
                        assert(bridged(list@, pin_gate@, g as int, e.0, e.1));
                    } else {
                        assert(s@[k] == e.1);
                    }
                }
                if before.contains(e) {
                    assert(bridged(list@, pin_gate@, g as int, e.0, e.1));
                    assert(bridged(list@, pin_gate@, g + 1, e.0, e.1));
                } else if links.contains(e) {
                    let k = choose|k: int| 0 <= k < s@.len() && #[trigger] s@[k] == e.1;
                    assert(terminal_nodes(list@, pin_gate@, g as int)[k] == e.1);
                    assert(bridged(list@, pin_gate@, g + 1, e.0, e.1));
                }
            }
            assert(links =~= next);
        }
        nodes.push(s);
        g += 1;
    }
    let ghost settled = dsu;
    let mut group: Vec<usize> = Vec::new();
    let mut counts: Vec<bool> = crate::vecs::filled(false, n);
    let mut i: usize = 0;
    while i < n
        invariant
            i <= n == list@.len(),
            gates_fit(list@, pin_gate@, gates@),
            settled.size() == n,
            settled.keeps(links),
            dsu.size() == n,
            dsu.wf(),
            forall|y: int| 0 <= y < n ==> #[trigger] dsu.chief(y) == settled.chief(y),
            group@.len() == i,
            forall|j: int| 0 <= j < i ==> (#[trigger] group@[j]) < n && group@[j] == settled.chief(j) && settled.chief(group@[j] as int) == group@[j],
            counts@.len() == n,
            forall|c: int| 0 <= c < n ==> (#[trigger] counts@[c] <==> exists|j: int| 0 <= j < i && #[trigger] group@[j] == c && has_gate(list@[j], pin_gate@, gates@)),
        decreases n - i,
    {
        let ghost (group0, counts0) = (group@, counts@);
        assert(dsu.chief(i as int) == settled.chief(i as int));
        let c: usize = dsu.find(i);
        assert(settled.chief(c as int) == c);
        group.push(c);
        let gated = node_has_gate(&list[i], pin_gate, gates);
        if gated {
            counts[c] = true;
        }
        proof {
            assert forall|d: int| 0 <= d < n implies (#[trigger] counts@[d] <==> exists|j: int| 0 <= j < i + 1 && #[trigger] group@[j] == d && has_gate(list@[j], pin_gate@, gates@)) by {
                assert(counts0[d] <==> exists|j: int| 0 <= j < i && #[trigger] group0[j] == d && has_gate(list@[j], pin_gate@, gates@));
                if counts0[d] {
                    let j = choose|j: int| 0 <= j < i && #[trigger] group0[j] == d && has_gate(list@[j], pin_gate@, gates@);
                    assert(group@[j] == d);
                }
                if exists|j: int| 0 <= j < i + 1 && #[trigger] group@[j] == d && has_gate(list@[j], pin_gate@, gates@) {
                    let j = choose|j: int| 0 <= j < i + 1 && #[trigger] group@[j] == d && has_gate(list@[j], pin_gate@, gates@);
                    if j < i {
                        assert(group0[j] == d);
                    }
                }
                if d == c && gated {
                    assert(group@[i as int] == d);
                }
            }
        }
        i += 1;
    }
    proof {
        assert forall|i: int, j: int| 0 <= i < n && 0 <= j < n implies (#[trigger] group@[i] == #[trigger] group@[j] <==> linked(links, i, j)) by {
            assert(settled.chief(i) == settled.chief(j) <==> linked(links, i, j));
        }
        assert forall|i: int| 0 <= i < n implies (#[trigger] group@[i]) < n && group@[group@[i] as int] == group@[i] by {
            assert(group@[group@[i] as int] == settled.chief(group@[i] as int));
        }
    }
    LayerGroups { group, counts, nodes }
}

// ---- the diodes a repair needs ----

/// The most diodes that are tried for one gate.
pub const MAX_DIODE_COUNT_PER_GATE: i32 = 10;

/// Whether one diode more is tried: while the partial ratios fail, until their number exceeds the
/// limit.
pub fn more_diodes(count: i32, violated: bool) -> (r: bool)
    ensures
        r == (violated && count <= MAX_DIODE_COUNT_PER_GATE),
{
    violated && count <= MAX_DIODE_COUNT_PER_GATE
}

/// What the checks of one gate on one layer gave.
#[derive(Debug)]
pub struct GateOutcome {
    /// Its place in the list of terminals.
    pub gate: usize,
    /// The layer's routing level.
    pub routing_level: i32,
    /// Whether a partial ratio is exceeded.
    pub violated: bool,
    /// The diodes tried until the partial ratios passed.
    pub diodes: i32,
    /// Whether a cumulative ratio is exceeded even so.
    pub cumulative: bool,
    /// The gates of the group, by their places in the list of terminals.
    pub group: Vec<usize>,
}

/// A violation: its layer's routing level, the gates to protect, how many diodes each needs, and the
/// outcome whose worst partial ratio it reports, if any.
#[derive(Debug)]
pub struct Violation {
    pub routing_level: i32,
    pub gates: Vec<usize>,
    pub diode_count_per_gate: i32,
    pub excess_of: Option<usize>,
}

/// A violation as plain values.
pub struct ViolationView {
    pub routing_level: int,
    pub gates: Seq<usize>,
    pub diode_count_per_gate: int,
    pub excess_of: Option<usize>,
}

impl Violation {
    pub open spec fn plain(self) -> ViolationView {
        ViolationView {
            routing_level: self.routing_level as int,
            gates: self.gates@,
            diode_count_per_gate: self.diode_count_per_gate as int,
            excess_of: self.excess_of,
        }
    }
}

pub open spec fn plain_violations(v: Seq<Violation>) -> Seq<ViolationView> {
    v.map_values(|x: Violation| x.plain())
}

/// The diodes that a gate has got from the first `n` outcomes.
pub open spec fn diodes_added(outcomes: Seq<GateOutcome>, n: int, gate: int) -> int
    decreases n,
{
    if n <= 0 {
        0
    } else {
        let s = diodes_added(outcomes, n - 1, gate);
        if outcomes[n - 1].gate == gate { s + (if outcomes[n - 1].diodes > s { outcomes[n - 1].diodes - s } else { 0 }) } else { s }
    }
}

/// The diodes that an outcome needs, less those that its gate already got.
pub open spec fn still_needed(outcomes: Seq<GateOutcome>, k: int) -> int {
    let added = diodes_added(outcomes, k, outcomes[k].gate as int);
    if outcomes[k].diodes > added { outcomes[k].diodes - added } else { 0 }
}

/// The gates of a list that are not diodes themselves.
pub open spec fn not_diodes(group: Seq<usize>, gates: Seq<GateFacts>, n: int) -> Seq<usize>
    decreases n,
{
    if n <= 0 {
        Seq::empty()
    } else {
        let s = not_diodes(group, gates, n - 1);
        if gates[group[n - 1] as int].is_antenna_cell { s } else { s.push(group[n - 1]) }
    }
}

/// The violations of the first `n` outcomes: a partial one with the diodes it still needs, and a
/// cumulative one with a diode for every gate of the group that is not itself a diode.
pub open spec fn violations_upto(outcomes: Seq<GateOutcome>, gates: Seq<GateFacts>, n: int) -> Seq<ViolationView>
    decreases n,
{
    if n <= 0 {
        Seq::empty()
    } else {
        let o = outcomes[n - 1];
        violations_upto(outcomes, gates, n - 1) + (if o.violated {
            seq![
                ViolationView {
                    routing_level: o.routing_level as int,
                    gates: seq![o.gate],
                    diode_count_per_gate: still_needed(outcomes, n - 1),
                    excess_of: Some((n - 1) as usize),
                },
            ]
        } else {
            Seq::empty()
        }) + (if o.cumulative {
            seq![
                ViolationView {
                    routing_level: o.routing_level as int,
                    gates: not_diodes(o.group@, gates, o.group@.len() as int),
                    diode_count_per_gate: 1,
                    excess_of: None,
                },
            ]
        } else {
            Seq::empty()
        })
    }
}

/// Whether a gate's outcomes among the first `n` all need at most `d` diodes, and one of them `d` or
/// none anything.
pub open spec fn most_needed(outcomes: Seq<GateOutcome>, n: int, gate: int, d: int) -> bool {
    &&& forall|k: int| 0 <= k < n && (#[trigger] outcomes[k]).gate == gate ==> outcomes[k].diodes <= d
    &&& d == 0 || exists|k: int| 0 <= k < n && (#[trigger] outcomes[k]).gate == gate && outcomes[k].diodes == d
}

/// A gate gets as many diodes in all as the layer that needs most of them.
pub proof fn a_gate_gets_what_its_worst_layer_needs(outcomes: Seq<GateOutcome>, n: int, gate: int)
    requires
        0 <= n <= outcomes.len(),
    ensures
        diodes_added(outcomes, n, gate) >= 0,
        most_needed(outcomes, n, gate, diodes_added(outcomes, n, gate)),
    decreases n,
{
    if n > 0 {
        a_gate_gets_what_its_worst_layer_needs(outcomes, n - 1, gate);
        let before = diodes_added(outcomes, n - 1, gate);
        let after = diodes_added(outcomes, n, gate);
        if outcomes[n - 1].gate == gate && outcomes[n - 1].diodes > before {
            assert(after == outcomes[n - 1].diodes);
        } else {
            assert(after == before);
            if before != 0 {
                let k = choose|k: int| 0 <= k < n - 1 && (#[trigger] outcomes[k]).gate == gate && outcomes[k].diodes == before;
                assert(outcomes[k].gate == gate);
            }
        }
    }
}

fn without_diodes(group: &Vec<usize>, gates: &[GateFacts]) -> (r: Vec<usize>)
    requires
        in_range(group@, gates@.len() as int),
    ensures
        r@ == not_diodes(group@, gates@, group@.len() as int),
{
    let mut r: Vec<usize> = Vec::new();
    let mut k: usize = 0;
    while k < group.len()
        invariant
            k <= group@.len(),
            in_range(group@, gates@.len() as int),
            r@ == not_diodes(group@, gates@, k as int),
        decreases group@.len() - k,
    {
        if !gates[group[k]].is_antenna_cell {
            r.push(group[k]);
        }
        k += 1;
    }
    r
}

/// Whether the outcomes speak of gates of the list.
pub open spec fn outcomes_fit(outcomes: Seq<GateOutcome>, gates: Seq<GateFacts>) -> bool {
    forall|k: int| 0 <= k < outcomes.len() ==> {
        &&& (#[trigger] outcomes[k]).gate < gates.len()
        &&& forall|j: int| 0 <= j < outcomes[k].group@.len() ==> (#[trigger] outcomes[k].group@[j]) < gates.len()
    }
}

/// The violations that a repair acts on, from the outcomes in the order of the gates and, within a
/// gate, of the layers.
pub fn check_gates(outcomes: &[GateOutcome], gates: &[GateFacts]) -> (r: Vec<Violation>)
    requires
        outcomes_fit(outcomes@, gates@),
    ensures
        plain_violations(r@) == violations_upto(outcomes@, gates@, outcomes@.len() as int),
{
    let mut r: Vec<Violation> = Vec::new();
    assert(plain_violations(r@) =~= violations_upto(outcomes@, gates@, 0));
    let mut added: Vec<i32> = crate::vecs::filled(0i32, gates.len());
    let mut k: usize = 0;
    while k < outcomes.len()
        invariant
            k <= outcomes@.len(),
            outcomes_fit(outcomes@, gates@),
            added@.len() == gates@.len(),
            forall|g: int| 0 <= g < added@.len() ==> #[trigger] added@[g] == diodes_added(outcomes@, k as int, g),
            forall|g: int| 0 <= g < added@.len() ==> #[trigger] added@[g] >= 0,
            plain_violations(r@) == violations_upto(outcomes@, gates@, k as int),
        decreases outcomes@.len() - k,
    {
        let o = &outcomes[k];
        let g: usize = o.gate;
        assert(outcomes@[k as int].gate < gates@.len());
        assert(added@[g as int] == diodes_added(outcomes@, k as int, g as int));
        let need: i32 = if o.diodes > added[g] { o.diodes - added[g] } else { 0 };
        let ghost (added0, r0) = (added@, r@);
        added[g] = added[g] + need;
        proof {
            assert forall|h: int| 0 <= h < added@.len() implies #[trigger] added@[h] == diodes_added(outcomes@, k + 1, h) by {
                assert(added0[h] == diodes_added(outcomes@, k as int, h));
            }
        }
        if o.violated {
            let mut one: Vec<usize> = Vec::new();
            one.push(g);
            assert(one@ =~= seq![g]);
            r.push(Violation { routing_level: o.routing_level, gates: one, diode_count_per_gate: need, excess_of: Some(k) });
        }
        if o.cumulative {
            let others = without_diodes(&o.group, gates);
            r.push(Violation { routing_level: o.routing_level, gates: others, diode_count_per_gate: 1, excess_of: None });
        }
        assert(plain_violations(r@) =~= violations_upto(outcomes@, gates@, k + 1));
        k += 1;
    }
    r
}

/// Whether a violation is the partial one of an outcome: its gate alone, with the diodes that it still needs.
pub open spec fn is_partial_of(v: ViolationView, o: GateOutcome, k: int) -> bool {
    v.excess_of == Some(k as usize) && v.routing_level == o.routing_level && v.gates.len() == 1 && v.gates[0] == o.gate
}

/// Whether a violation is the cumulative one of an outcome: a diode for each gate of the group that is not an antenna
/// cell itself, in the order of the group.
pub open spec fn is_cumulative_of(v: ViolationView, o: GateOutcome, gates: Seq<GateFacts>) -> bool {
    &&& v.excess_of is None
    &&& v.routing_level == o.routing_level
    &&& v.diode_count_per_gate == 1
    &&& v.gates == o.group@.filter(|g: usize| !gates[g as int].is_antenna_cell)
    &&& forall|g: usize| #[trigger] v.gates.contains(g) <==> o.group@.contains(g) && !gates[g as int].is_antenna_cell
}

/// How many violations the first `n` outcomes make.
pub open spec fn violations_made(outcomes: Seq<GateOutcome>, n: int) -> int
    decreases n,
{
    if n <= 0 {
        0
    } else {
        violations_made(outcomes, n - 1) + (if outcomes[n - 1].violated { 1int } else { 0int }) + (if outcomes[n - 1].cumulative { 1int } else { 0int })
    }
}

proof fn lemma_not_diodes(group: Seq<usize>, gates: Seq<GateFacts>, n: int)
    requires
        0 <= n <= group.len(),
    ensures
        not_diodes(group, gates, n) == group.take(n).filter(|g: usize| !gates[g as int].is_antenna_cell),
    decreases n,
{
    reveal(Seq::filter);
    let pred = |g: usize| !gates[g as int].is_antenna_cell;
    if n > 0 {
        lemma_not_diodes(group, gates, n - 1);
        assert(group.take(n).drop_last() =~= group.take(n - 1));
        assert(group.take(n).last() == group[n - 1]);
    } else {
        assert(group.take(0).filter(pred) =~= Seq::empty());
    }
}

proof fn lemma_out_of_group(group: Seq<usize>, gates: Seq<GateFacts>, n: int, g: usize)
    requires
        0 <= n <= group.len(),
    ensures
        not_diodes(group, gates, n).contains(g) ==> group.contains(g) && !gates[g as int].is_antenna_cell,
    decreases n,
{
    if n > 0 {
        let (now, before) = (not_diodes(group, gates, n), not_diodes(group, gates, n - 1));
        lemma_out_of_group(group, gates, n - 1, g);
        if now.contains(g) {
            let i = choose|i: int| 0 <= i < now.len() && now[i] == g;
            if i < before.len() {
                assert(before[i] == g);
            } else {
                assert(group[n - 1] == g);
            }
        }
    }
}

/// The gates that a cumulative violation names.
proof fn lemma_cumulative(o: GateOutcome, gates: Seq<GateFacts>, v: ViolationView)
    requires
        v.excess_of is None,
        v.routing_level == o.routing_level,
        v.diode_count_per_gate == 1,
        v.gates == not_diodes(o.group@, gates, o.group@.len() as int),
    ensures
        is_cumulative_of(v, o, gates),
{
    let group = o.group@;
    let pred = |g: usize| !gates[g as int].is_antenna_cell;
    lemma_not_diodes(group, gates, group.len() as int);
    assert(group.take(group.len() as int) =~= group);
    group.filter_lemma(pred);
    assert forall|g: usize| #[trigger] v.gates.contains(g) <==> group.contains(g) && !gates[g as int].is_antenna_cell by {
        lemma_out_of_group(group, gates, group.len() as int, g);
        if group.contains(g) && pred(g) {
            let i = choose|i: int| 0 <= i < group.len() && group[i] == g;
            assert(group.filter(pred).contains(group[i]));
        }
    }
}

/// Every outcome that exceeds a partial ratio has a violation of its gate alone, and every one that exceeds a
/// cumulative ratio has one of exactly those gates of its group that are not antenna cells. They stand in the order
/// of the outcomes, the partial one first, and there are no others.
pub proof fn a_violation_names_every_gate_to_protect(outcomes: Seq<GateOutcome>, gates: Seq<GateFacts>, n: int, v: Seq<ViolationView>)
    requires
        0 <= n <= outcomes.len(),
        outcomes.len() <= usize::MAX,
        v == violations_upto(outcomes, gates, n),
    ensures
        v.len() == violations_made(outcomes, n),
        forall|k: int|
            0 <= k < n ==> {
                let at = #[trigger] violations_made(outcomes, k);
                &&& 0 <= at
                &&& outcomes[k].violated ==> at < v.len() && is_partial_of(v[at], outcomes[k], k)
                &&& outcomes[k].cumulative ==> at + (if outcomes[k].violated { 1int } else { 0int }) < v.len() && is_cumulative_of(
                    v[at + (if outcomes[k].violated { 1int } else { 0int })],
                    outcomes[k],
                    gates,
                )
            },
    decreases n,
{
    if n > 0 {
        let before = violations_upto(outcomes, gates, n - 1);
        a_violation_names_every_gate_to_protect(outcomes, gates, n - 1, before);
        let o = outcomes[n - 1];
        assert forall|k: int| 0 <= k < n implies {
            let at = #[trigger] violations_made(outcomes, k);
            &&& 0 <= at
            &&& outcomes[k].violated ==> at < v.len() && is_partial_of(v[at], outcomes[k], k)
            &&& outcomes[k].cumulative ==> at + (if outcomes[k].violated { 1int } else { 0int }) < v.len() && is_cumulative_of(
                v[at + (if outcomes[k].violated { 1int } else { 0int })],
                outcomes[k],
                gates,
            )
        } by {
            let at = violations_made(outcomes, k);
            let next = at + (if outcomes[k].violated { 1int } else { 0int });
            if k < n - 1 {
                if outcomes[k].violated {
                    assert(v[at] == before[at]);
                }
                if outcomes[k].cumulative {
                    assert(v[next] == before[next]);
                }
            } else if o.cumulative {
                lemma_cumulative(o, gates, v[next]);
            }
        }
    }
}

/// Whether any entry is true.
pub open spec fn any(v: Seq<bool>) -> bool {
    exists|k: int| 0 <= k < v.len() && #[trigger] v[k]
}

/// The number of the first `n` lists with a true entry.
pub open spec fn violating(checks: Seq<Vec<bool>>, n: int) -> int
    decreases n,
{
    if n <= 0 { 0 } else { violating(checks, n - 1) + (if any(checks[n - 1]@) { 1int } else { 0int }) }
}

/// The number of gates that violate on some layer.
pub fn pin_violation_count(checks: &[Vec<bool>]) -> (c: usize)
    ensures
        c == violating(checks@, checks@.len() as int),
{
    let mut c: usize = 0;
    let mut k: usize = 0;
    while k < checks.len()
        invariant
            k <= checks@.len(),
            c <= k,
            c == violating(checks@, k as int),
        decreases checks@.len() - k,
    {
        let mut found = false;
        let mut j: usize = 0;
        while j < checks[k].len()
            invariant
                k < checks@.len(),
                j <= checks@[k as int]@.len(),
                found == exists|i: int| 0 <= i < j && #[trigger] checks@[k as int]@[i],
            decreases checks@[k as int]@.len() - j,
        {
            if checks[k][j] {
                found = true;
            }
            j += 1;
        }
        if found {
            c += 1;
        }
        k += 1;
    }
    c
}

/// The regions near a shape are those with a box close to one of its boxes, each named once and
/// in order.
pub proof fn the_regions_near_a_shape_are_all_named(nodes: Seq<Region>, q: Set<R>, n: int)
    requires
        0 <= n,
    ensures
        near_upto(nodes, q, n) == all_of(
            n,
            |k: int| if near(nodes[k], q) { seq![k as usize] } else { Seq::empty() },
        ),
    decreases n,
{
    let f = |k: int| if near(nodes[k], q) { seq![k as usize] } else { Seq::empty() };
    if n > 0 {
        the_regions_near_a_shape_are_all_named(nodes, q, n - 1);
        lemma_all_next(n - 1, f);
    } else {
        lemma_all_none(f);
    }
    assert(near_upto(nodes, q, n) =~= all_of(n, f));
}

/// The boxes that a via has on a layer are those listed with that layer, in order.
pub proof fn the_boxes_of_a_via_on_a_layer(boxes: Seq<(usize, Rect)>, t: int, n: int)
    requires
        0 <= n,
    ensures
        via_boxes(boxes, n, t) == all_of(
            n,
            |k: int| if boxes[k].0 == t { seq![(boxes[k].1.x_min, boxes[k].1.y_min, boxes[k].1.x_max, boxes[k].1.y_max)] } else { Seq::empty() },
        ),
    decreases n,
{
    let f = |k: int| if boxes[k].0 == t { seq![(boxes[k].1.x_min, boxes[k].1.y_min, boxes[k].1.x_max, boxes[k].1.y_max)] } else { Seq::empty() };
    if n > 0 {
        the_boxes_of_a_via_on_a_layer(boxes, t, n - 1);
        lemma_all_next(n - 1, f);
    } else {
        lemma_all_none(f);
    }
    assert(via_boxes(boxes, n, t) =~= all_of(n, f));
}

/// The boxes that pins have on a layer are those listed with that layer, in order.
pub proof fn the_boxes_of_pins_on_a_layer(pins: Seq<(usize, R)>, t: int, n: int)
    requires
        0 <= n,
    ensures
        pin_boxes(pins, n, t) == all_of(
            n,
            |k: int| if pins[k].0 == t { seq![pins[k].1] } else { Seq::empty() },
        ),
    decreases n,
{
    let f = |k: int| if pins[k].0 == t { seq![pins[k].1] } else { Seq::empty() };
    if n > 0 {
        the_boxes_of_pins_on_a_layer(pins, t, n - 1);
        lemma_all_next(n - 1, f);
    } else {
        lemma_all_none(f);
    }
    assert(pin_boxes(pins, n, t) =~= all_of(n, f));
}

/// The boxes that a wire has on a layer are its segments of that layer's routing level and what
/// its vias have there, in order.
pub proof fn the_shapes_of_a_wire_on_a_layer(shapes: Seq<Shape>, tech: TechLayers, t: int, n: int)
    requires
        0 <= n,
    ensures
        shape_boxes(shapes, n, tech, t) == all_of(
            n,
            |k: int| match shapes[k] { Shape::Segment { level, rect } => if tech.routing_layer(level) == Some(t as usize) { seq![as_box(rect)] } else { Seq::empty() }, Shape::Via { boxes } => via_boxes(boxes@, boxes@.len() as int, t) },
        ),
    decreases n,
{
    let f = |k: int| match shapes[k] { Shape::Segment { level, rect } => if tech.routing_layer(level) == Some(t as usize) { seq![as_box(rect)] } else { Seq::empty() }, Shape::Via { boxes } => via_boxes(boxes@, boxes@.len() as int, t) };
    if n > 0 {
        the_shapes_of_a_wire_on_a_layer(shapes, tech, t, n - 1);
        lemma_all_next(n - 1, f);
    } else {
        lemma_all_none(f);
    }
    assert(shape_boxes(shapes, n, tech, t) =~= all_of(n, f));
}

/// The vias under a shape of a layer are those near it on the cut layers whose upper layer it is.
pub proof fn the_vias_under_a_shape_are_those_of_the_cut_layers_below(nodes: Seq<Vec<GraphNode>>, tech: TechLayers, t: int, q: Set<R>, n: int)
    requires
        0 <= n,
    ensures
        vias_under(nodes, tech, t, q, n) == all_of(
            n,
            |k: int| if tech.0@[k].routing_level == 0 && tech.0@[k].upper == Some(t as usize) { near_nodes(nodes[k]@, q) } else { Seq::empty() },
        ),
    decreases n,
{
    let f = |k: int| if tech.0@[k].routing_level == 0 && tech.0@[k].upper == Some(t as usize) { near_nodes(nodes[k]@, q) } else { Seq::empty() };
    if n > 0 {
        the_vias_under_a_shape_are_those_of_the_cut_layers_below(nodes, tech, t, q, n - 1);
        lemma_all_next(n - 1, f);
    } else {
        lemma_all_none(f);
    }
    assert(vias_under(nodes, tech, t, q, n) =~= all_of(n, f));
}

/// The nodes of a layer are numbered after all those of the layers below it.
pub proof fn nodes_are_numbered_layer_by_layer(nodes: Seq<Vec<GraphNode>>, n: int)
    requires
        0 <= n,
    ensures
        node_count(nodes, n) == sum_of(
            n,
            |k: int| nodes[k]@.len() as int,
        ),
    decreases n,
{
    let f = |k: int| nodes[k]@.len() as int;
    if n > 0 {
        nodes_are_numbered_layer_by_layer(nodes, n - 1);
        lemma_sum_next(n - 1, f);
    } else {
        lemma_sum_none(f);
    }
}

/// The polygons of a layer are numbered after all those of the layers below it.
pub proof fn polygons_are_numbered_layer_by_layer(polygons: Seq<Vec<Vec<(i32, i32)>>>, n: int)
    requires
        0 <= n,
    ensures
        polygons_below(polygons, n) == sum_of(
            n,
            |k: int| polygons[k]@.len() as int,
        ),
    decreases n,
{
    let f = |k: int| polygons[k]@.len() as int;
    if n > 0 {
        polygons_are_numbered_layer_by_layer(polygons, n - 1);
        lemma_sum_next(n - 1, f);
    } else {
        lemma_sum_none(f);
    }
}

/// The nodes that a pin connects to are those that any of its boxes touches, box by box.
pub proof fn a_pin_is_connected_by_every_one_of_its_boxes(nodes: Seq<Vec<GraphNode>>, tech: TechLayers, boxes: Seq<(usize, R)>, n: int)
    requires
        0 <= n,
    ensures
        pin_nbrs(nodes, tech, boxes, n) == all_of(
            n,
            |k: int| box_nbrs(nodes, tech, boxes[k].0 as int, boxes[k].1),
        ),
    decreases n,
{
    let f = |k: int| box_nbrs(nodes, tech, boxes[k].0 as int, boxes[k].1);
    if n > 0 {
        a_pin_is_connected_by_every_one_of_its_boxes(nodes, tech, boxes, n - 1);
        lemma_all_next(n - 1, f);
    } else {
        lemma_all_none(f);
    }
    assert(pin_nbrs(nodes, tech, boxes, n) =~= all_of(n, f));
}

/// The nodes that a name connects to are those of every pin with that name.
pub proof fn pins_of_one_name_are_connected_together(nodes: Seq<Vec<GraphNode>>, tech: TechLayers, pins: Seq<PinFacts>, name: Seq<char>, n: int)
    requires
        0 <= n,
    ensures
        named_nbrs(nodes, tech, pins, name, n) == all_of(
            n,
            |k: int| if pins[k].name@ == name { pin_nbrs(nodes, tech, pins[k].boxes@, pins[k].boxes@.len() as int) } else { Seq::empty() },
        ),
    decreases n,
{
    let f = |k: int| if pins[k].name@ == name { pin_nbrs(nodes, tech, pins[k].boxes@, pins[k].boxes@.len() as int) } else { Seq::empty() };
    if n > 0 {
        pins_of_one_name_are_connected_together(nodes, tech, pins, name, n - 1);
        lemma_all_next(n - 1, f);
    } else {
        lemma_all_none(f);
    }
    assert(named_nbrs(nodes, tech, pins, name, n) =~= all_of(n, f));
}

/// The pins on a node are the first of each name among those that the node reaches, in order.
pub proof fn a_gate_is_on_a_node_that_reaches_its_pin(nodes: Seq<Vec<GraphNode>>, tech: TechLayers, pins: Seq<PinFacts>, links: Set<(int, int)>, id: int, n: int)
    requires
        0 <= n,
    ensures
        gate_list(nodes, tech, pins, links, id, n) == all_of(
            n,
            |k: int| if is_first(pins, k) && reaches(links, id, nbrs(nodes, tech, pins, k)) { seq![k as usize] } else { Seq::empty() },
        ),
    decreases n,
{
    let f = |k: int| if is_first(pins, k) && reaches(links, id, nbrs(nodes, tech, pins, k)) { seq![k as usize] } else { Seq::empty() };
    if n > 0 {
        a_gate_is_on_a_node_that_reaches_its_pin(nodes, tech, pins, links, id, n - 1);
        lemma_all_next(n - 1, f);
    } else {
        lemma_all_none(f);
    }
    assert(gate_list(nodes, tech, pins, links, id, n) =~= all_of(n, f));
}

/// A node is listed for a gate once for each of its pins that is one of that gate's.
pub proof fn a_node_is_of_a_gate_once_for_each_pin(pins: Seq<usize>, pin_gate: Seq<usize>, g: int, i: int, n: int)
    requires
        0 <= n,
    ensures
        hits(pins, pin_gate, g, i, n) == all_of(
            n,
            |k: int| if pin_gate[pins[k] as int] == g { seq![i as usize] } else { Seq::empty() },
        ),
    decreases n,
{
    let f = |k: int| if pin_gate[pins[k] as int] == g { seq![i as usize] } else { Seq::empty() };
    if n > 0 {
        a_node_is_of_a_gate_once_for_each_pin(pins, pin_gate, g, i, n - 1);
        lemma_all_next(n - 1, f);
    } else {
        lemma_all_none(f);
    }
    assert(hits(pins, pin_gate, g, i, n) =~= all_of(n, f));
}

/// The nets counted as violating are those with a violation of any kind.
pub proof fn a_net_is_violating_where_any_check_is(checks: Seq<Vec<bool>>, n: int)
    requires
        0 <= n,
    ensures
        violating(checks, n) == count_of(
            n,
            |k: int| exists|j: int| 0 <= j < checks[k]@.len() && #[trigger] checks[k]@[j],
        ),
    decreases n,
{
    let f = |k: int| exists|j: int| 0 <= j < checks[k]@.len() && #[trigger] checks[k]@[j];
    if n > 0 {
        a_net_is_violating_where_any_check_is(checks, n - 1);
        lemma_count_next(n - 1, f);
    } else {
        lemma_count_none(f);
    }
}

/// The sides of a polygon that count for a box are the upright ones at or before its left that
/// reach over its height, the last side closing the polygon.
pub proof fn a_box_is_crossed_by_the_upright_sides_before_it(pol: Seq<(i32, i32)>, x: i32, y0: i32, y1: i32, n: int)
    requires
        0 <= n,
    ensures
        crossings(pol, n, x, y0, y1) == count_of(
            n,
            |k: int| crosses(pol[k], if k + 1 == pol.len() { pol[0] } else { pol[k + 1] }, x, y0, y1),
        ),
    decreases n,
{
    let f = |k: int| crosses(pol[k], if k + 1 == pol.len() { pol[0] } else { pol[k + 1] }, x, y0, y1);
    if n > 0 {
        a_box_is_crossed_by_the_upright_sides_before_it(pol, x, y0, y1, n - 1);
        lemma_count_next(n - 1, f);
    } else {
        lemma_count_none(f);
    }
}

/// The nodes of a gate are listed node by node, each once for every pin of it that is one of that
/// gate's.
pub proof fn the_nodes_of_a_gate_are_listed_node_by_node(list: Seq<GraphNode>, pin_gate: Seq<usize>, g: int, n: int)
    requires
        0 <= n,
    ensures
        nodes_of(list, pin_gate, g, n) == all_of(
            n,
            |k: int| hits(list[k].gates@, pin_gate, g, k, list[k].gates@.len() as int),
        ),
    decreases n,
{
    let f = |k: int| hits(list[k].gates@, pin_gate, g, k, list[k].gates@.len() as int);
    if n > 0 {
        the_nodes_of_a_gate_are_listed_node_by_node(list, pin_gate, g, n - 1);
        lemma_all_next(n - 1, f);
    } else {
        lemma_all_none(f);
    }
    assert(nodes_of(list, pin_gate, g, n) =~= all_of(n, f));
}

/// The layer of a level is the first that has it, and one is found wherever one has.
pub proof fn the_first_layer_of_a_level_is_found(layers: Seq<TechLayer>, level: i32, n: int)
    requires
        0 <= n <= layers.len() <= usize::MAX,
    ensures
        match first_of_level(layers, level, n) {
            Some(t) => t < n && layers[t as int].routing_level == level && (forall|j: int| 0 <= j < t ==> (#[trigger] layers[j]).routing_level != level),
            None => forall|j: int| 0 <= j < n ==> (#[trigger] layers[j]).routing_level != level,
        },
    decreases n,
{
    if n > 0 {
        the_first_layer_of_a_level_is_found(layers, level, n - 1);
    }
}

/// A violation asks for as many diodes as its gate gets by it: those that it has after, less those that it
/// had before.
pub proof fn a_violation_asks_for_what_its_gate_lacks(outcomes: Seq<GateOutcome>, k: int)
    requires
        0 <= k < outcomes.len(),
    ensures
        still_needed(outcomes, k) == diodes_added(outcomes, k + 1, outcomes[k].gate as int) - diodes_added(outcomes, k, outcomes[k].gate as int),
{
}

} // verus!
