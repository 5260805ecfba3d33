//! The region where two lists of rectangles meet, cut into slabs.

use vstd::prelude::*;

use crate::adjust::{covers, intervals_wf, IntervalSet};
use crate::Rect;

verus! {

/// Whether a rectangle holds a point; its upper sides are outside.
pub open spec fn holds(r: Rect, x: int, y: int) -> bool {
    r.x_min <= x < r.x_max && r.y_min <= y < r.y_max
}

/// Whether one of the rectangles holds a point.
pub open spec fn some_holds(v: Seq<Rect>, x: int, y: int) -> bool {
    exists|i: int| 0 <= i < v.len() && holds(#[trigger] v[i], x, y)
}

/// Whether both lists hold a point.
pub open spec fn both_hold(lower: Seq<Rect>, upper: Seq<Rect>, x: int, y: int) -> bool {
    some_holds(lower, x, y) && some_holds(upper, x, y)
}

/// The region where both lists hold.
pub open spec fn meeting_region(lower: Seq<Rect>, upper: Seq<Rect>) -> spec_fn(int, int) -> bool {
    |x: int, y: int| both_hold(lower, upper, x, y)
}

/// Whether one slab stands before another: it starts lower, or as low and further left.
pub open spec fn slab_before(a: Rect, b: Rect) -> bool {
    a.y_min < b.y_min || (a.y_min == b.y_min && a.x_min < b.x_min)
}

/// Whether two rectangles have a point in common.
pub open spec fn share_a_point(a: Rect, b: Rect) -> bool {
    a.x_min < b.x_max && b.x_min < a.x_max && a.y_min < b.y_max && b.y_min < a.y_max
}

/// Whether the second rectangle stands right on top of the first, as wide as it.
pub open spec fn is_stacked(a: Rect, b: Rect) -> bool {
    a.x_min == b.x_min && a.x_max == b.x_max && a.y_max == b.y_min
}

/// Whether in no row of a rectangle the region goes on past its left or right side.
pub open spec fn is_as_wide_as_the_region(f: spec_fn(int, int) -> bool, r: Rect) -> bool {
    forall|y: int| r.y_min <= y < r.y_max ==> !#[trigger] f(r.x_min - 1, y) && !f(r.x_max as int, y)
}

/// Whether rectangles are the slabs of a region: they hold it and no more, each is as wide as the region
/// there and as high as that width lasts, and they stand in order.
pub open spec fn are_slabs(f: spec_fn(int, int) -> bool, s: Seq<Rect>) -> bool {
    &&& forall|x: int, y: int| #[trigger] f(x, y) <==> some_holds(s, x, y)
    &&& forall|i: int| 0 <= i < s.len() ==> (#[trigger] s[i]).x_min < s[i].x_max && s[i].y_min < s[i].y_max
    &&& forall|i: int| 0 <= i < s.len() ==> is_as_wide_as_the_region(f, #[trigger] s[i])
    &&& forall|i: int, j: int| 0 <= i < j < s.len() ==> slab_before(#[trigger] s[i], #[trigger] s[j])
    &&& forall|i: int, j: int| 0 <= i < s.len() && 0 <= j < s.len() && i != j ==> !share_a_point(#[trigger] s[i], #[trigger] s[j])
    &&& forall|i: int, j: int| 0 <= i < s.len() && 0 <= j < s.len() ==> !is_stacked(#[trigger] s[i], #[trigger] s[j])
}

/// The slabs of the region where two lists of rectangles meet; [`a_region_has_one_list_of_slabs`] shows that
/// there is one such list.
pub open spec fn slabs(lower: Seq<Rect>, upper: Seq<Rect>) -> Seq<Rect> {
    choose|s: Seq<Rect>| are_slabs(meeting_region(lower, upper), s)
}

/// Where two slabs of a region share a point of a row, they are as wide as each other.
proof fn lemma_one_width(f: spec_fn(int, int) -> bool, r: Rect, u: Rect, x: int, y: int)
    requires
        holds(r, x, y),
        holds(u, x, y),
        forall|a: int| r.x_min <= a < r.x_max ==> #[trigger] f(a, y),
        forall|a: int| u.x_min <= a < u.x_max ==> #[trigger] f(a, y),
        is_as_wide_as_the_region(f, r),
        is_as_wide_as_the_region(f, u),
    ensures
        r.x_min == u.x_min,
        r.x_max == u.x_max,
{
    assert(!f(r.x_min - 1, y) && !f(r.x_max as int, y));
    assert(!f(u.x_min - 1, y) && !f(u.x_max as int, y));
    if u.x_min < r.x_min {
        assert(f(r.x_min - 1, y));
    }
    if r.x_min < u.x_min {
        assert(f(u.x_min - 1, y));
    }
    if u.x_max < r.x_max {
        assert(f(u.x_max as int, y));
    }
    if r.x_max < u.x_max {
        assert(f(r.x_max as int, y));
    }
}

proof fn lemma_row_of(f: spec_fn(int, int) -> bool, s: Seq<Rect>, i: int, y: int)
    requires
        are_slabs(f, s),
        0 <= i < s.len(),
        s[i].y_min <= y < s[i].y_max,
    ensures
        forall|a: int| s[i].x_min <= a < s[i].x_max ==> #[trigger] f(a, y),
{
    assert forall|a: int| s[i].x_min <= a < s[i].x_max implies #[trigger] f(a, y) by {
        assert(holds(s[i], a, y));
        assert(some_holds(s, a, y));
    }
}

/// A slab of one list is a slab of the other.
proof fn lemma_slab_in_other(f: spec_fn(int, int) -> bool, s: Seq<Rect>, t: Seq<Rect>, i: int)
    requires
        are_slabs(f, s),
        are_slabs(f, t),
        0 <= i < s.len(),
    ensures
        t.contains(s[i]),
{
    let r = s[i];
    let (x, y) = (r.x_min as int, r.y_min as int);
    assert(holds(r, x, y));
    assert(some_holds(s, x, y));
    assert(f(x, y));
    let k = choose|k: int| 0 <= k < t.len() && holds(#[trigger] t[k], x, y);
    let u = t[k];
    lemma_row_of(f, s, i, y);
    lemma_row_of(f, t, k, y);
    lemma_one_width(f, r, u, x, y);
    if u.y_min < y {
        // the row below belongs to the region too, as wide as here
        lemma_row_of(f, t, k, y - 1);
        assert(f(x, y - 1));
        let m = choose|m: int| 0 <= m < s.len() && holds(#[trigger] s[m], x, y - 1);
        lemma_row_of(f, s, m, y - 1);
        lemma_one_width(f, s[m], u, x, y - 1);
        assert(!share_a_point(s[m], s[i]));
        assert(is_stacked(s[m], s[i]));
    }
    if u.y_max < r.y_max {
        let z = u.y_max as int;
        lemma_row_of(f, s, i, z);
        assert(f(x, z));
        let m = choose|m: int| 0 <= m < t.len() && holds(#[trigger] t[m], x, z);
        lemma_row_of(f, t, m, z);
        lemma_one_width(f, r, t[m], x, z);
        assert(!share_a_point(t[m], t[k]));
        assert(is_stacked(t[k], t[m]));
    }
    if r.y_max < u.y_max {
        let z = r.y_max as int;
        lemma_row_of(f, t, k, z);
        assert(f(x, z));
        let m = choose|m: int| 0 <= m < s.len() && holds(#[trigger] s[m], x, z);
        lemma_row_of(f, s, m, z);
        lemma_one_width(f, u, s[m], x, z);
        assert(!share_a_point(s[m], s[i]));
        assert(is_stacked(s[i], s[m]));
    }
    assert(u == r);
}

/// A region has one list of slabs.
pub proof fn a_region_has_one_list_of_slabs(f: spec_fn(int, int) -> bool, s: Seq<Rect>, t: Seq<Rect>)
    requires
        are_slabs(f, s),
        are_slabs(f, t),
    ensures
        s == t,
{
    lemma_prefix(f, s, t, s.len() as int);
    lemma_prefix(f, t, s, t.len() as int);
    assert(s.len() == t.len());
    assert(s =~= t);
}

proof fn lemma_prefix(f: spec_fn(int, int) -> bool, s: Seq<Rect>, t: Seq<Rect>, n: int)
    requires
        are_slabs(f, s),
        are_slabs(f, t),
        0 <= n <= s.len(),
    ensures
        n <= t.len(),
        forall|i: int| 0 <= i < n ==> s[i] == t[i],
    decreases n,
{
    if n > 0 {
        lemma_prefix(f, s, t, n - 1);
        lemma_slab_in_other(f, s, t, n - 1);
        let k = choose|k: int| 0 <= k < t.len() && t[k] == s[n - 1];
        if k < n - 1 {
            assert(slab_before(s[k], s[n - 1]));
        }
        assert(k >= n - 1);
        if k > n - 1 {
            lemma_slab_in_other(f, t, s, n - 1);
            let m = choose|m: int| 0 <= m < s.len() && s[m] == t[n - 1];
            assert(slab_before(t[n - 1], t[k]));
            if m < n - 1 {
                assert(slab_before(t[m], t[n - 1]));
            } else if m > n - 1 {
                assert(slab_before(s[n - 1], s[m]));
            }
        }
    }
}

/// Whether a slab ends below a row or left of a column.
spec fn is_below_or_left(s: Seq<Rect>, y0: int, a: int) -> bool {
    forall|i: int| 0 <= i < s.len() ==> (#[trigger] s[i]).y_min <= y0 && (s[i].y_max <= y0 || s[i].x_max < a)
}

/// A new slab at the end.
proof fn lemma_push(f: spec_fn(int, int) -> bool, s: Seq<Rect>, r: Rect, g: spec_fn(int, int) -> bool)
    requires
        are_slabs(f, s),
        r.x_min < r.x_max,
        r.y_min < r.y_max,
        forall|x: int, y: int| #[trigger] g(x, y) <==> f(x, y) || holds(r, x, y),
        is_as_wide_as_the_region(g, r),
        is_below_or_left(s, r.y_min as int, r.x_min as int),
        forall|i: int| 0 <= i < s.len() ==> !is_stacked(#[trigger] s[i], r),
    ensures
        are_slabs(g, s.push(r)),
{
    let t = s.push(r);
    assert forall|x: int, y: int| #[trigger] g(x, y) <==> some_holds(t, x, y) by {
        if f(x, y) {
            let i = choose|i: int| 0 <= i < s.len() && holds(#[trigger] s[i], x, y);
            assert(holds(t[i], x, y));
        }
        if holds(r, x, y) {
            assert(holds(t[s.len() as int], x, y));
        }
        if some_holds(t, x, y) {
            let i = choose|i: int| 0 <= i < t.len() && holds(#[trigger] t[i], x, y);
            if i < s.len() {
                assert(holds(s[i], x, y));
                assert(some_holds(s, x, y));
            }
        }
    }
    assert forall|i: int| 0 <= i < t.len() implies is_as_wide_as_the_region(g, #[trigger] t[i]) by {
        if i < s.len() {
            assert(s[i] == t[i]);
            assert forall|y: int| t[i].y_min <= y < t[i].y_max implies !#[trigger] g(t[i].x_min - 1, y) && !g(t[i].x_max as int, y) by {
                assert(!f(s[i].x_min - 1, y) && !f(s[i].x_max as int, y));
            }
        }
    }
    assert forall|i: int, j: int| 0 <= i < j < t.len() implies slab_before(#[trigger] t[i], #[trigger] t[j]) by {
        assert(t[i] == s[i]);
        if j < s.len() {
            assert(slab_before(s[i], s[j]));
        }
    }
    assert forall|i: int, j: int| 0 <= i < t.len() && 0 <= j < t.len() && i != j implies !share_a_point(#[trigger] t[i], #[trigger] t[j]) by {
        if i < s.len() && j < s.len() {
            assert(!share_a_point(s[i], s[j]));
        } else if i < s.len() {
            assert(s[i] == t[i]);
        } else {
            assert(s[j] == t[j]);
        }
    }
    assert forall|i: int, j: int| 0 <= i < t.len() && 0 <= j < t.len() implies !is_stacked(#[trigger] t[i], #[trigger] t[j]) by {
        if i < s.len() && j < s.len() {
            assert(!is_stacked(s[i], s[j]));
        } else if i < s.len() {
            assert(s[i] == t[i]);
        } else if j < s.len() {
            assert(s[j] == t[j]);
        }
    }
}

/// A slab that goes on up to a row.
proof fn lemma_extend(f: spec_fn(int, int) -> bool, s: Seq<Rect>, k: int, y1: int, g: spec_fn(int, int) -> bool)
    requires
        are_slabs(f, s),
        0 <= k < s.len(),
        s[k].y_max < y1 <= i32::MAX,
        forall|x: int, y: int| #[trigger] g(x, y) <==> f(x, y) || (s[k].x_min <= x < s[k].x_max && s[k].y_max <= y < y1),
        forall|y: int| s[k].y_max <= y < y1 ==> !#[trigger] g(s[k].x_min - 1, y) && !g(s[k].x_max as int, y),
        is_below_or_left(s, s[k].y_max as int, s[k].x_min as int),
    ensures
        are_slabs(g, s.update(k, (Rect { y_max: y1 as i32, ..s[k] }))),
{
    let r = Rect { y_max: y1 as i32, ..s[k] };
    let t = s.update(k, r);
    assert forall|x: int, y: int| #[trigger] g(x, y) <==> some_holds(t, x, y) by {
        if f(x, y) {
            let i = choose|i: int| 0 <= i < s.len() && holds(#[trigger] s[i], x, y);
            assert(holds(t[i], x, y));
        }
        if s[k].x_min <= x < s[k].x_max && s[k].y_max <= y < y1 {
            assert(holds(t[k], x, y));
        }
        if some_holds(t, x, y) {
            let i = choose|i: int| 0 <= i < t.len() && holds(#[trigger] t[i], x, y);
            if i != k || y < s[k].y_max {
                assert(holds(s[i], x, y));
                assert(some_holds(s, x, y));
            }
        }
    }
    assert forall|i: int| 0 <= i < t.len() implies is_as_wide_as_the_region(g, #[trigger] t[i]) by {
        assert(s[i].y_min <= s[k].y_max);
        assert forall|y: int| t[i].y_min <= y < t[i].y_max implies !#[trigger] g(t[i].x_min - 1, y) && !g(t[i].x_max as int, y) by {
            if y < s[i].y_max {
                assert(!f(s[i].x_min - 1, y) && !f(s[i].x_max as int, y));
            }
            if i == k && y >= s[k].y_max {
                assert(!g(s[k].x_min - 1, y));
            }
        }
    }
    assert forall|i: int, j: int| 0 <= i < j < t.len() implies slab_before(#[trigger] t[i], #[trigger] t[j]) by {
        assert(slab_before(s[i], s[j]));
    }
    assert forall|i: int, j: int| 0 <= i < t.len() && 0 <= j < t.len() && i != j implies !share_a_point(#[trigger] t[i], #[trigger] t[j]) by {
        assert(!share_a_point(s[i], s[j]));
    }
    assert forall|i: int, j: int| 0 <= i < t.len() && 0 <= j < t.len() implies !is_stacked(#[trigger] t[i], #[trigger] t[j]) by {
        assert(!is_stacked(s[i], s[j]));
        assert(s[j].y_min <= s[k].y_max);
    }
}

/// Whether numbers ascend.
spec fn ascends(v: Seq<i32>) -> bool {
    forall|i: int, j: int| 0 <= i < j < v.len() ==> (#[trigger] v[i]) < (#[trigger] v[j])
}

/// Puts a number in its place, once.
fn put_in_order(v: &mut Vec<i32>, n: i32)
    requires
        ascends(old(v)@),
    ensures
        ascends(final(v)@),
        forall|m: i32| #[trigger] final(v)@.contains(m) <==> old(v)@.contains(m) || m == n,
{
    let ghost s0 = v@;
    let mut k: usize = 0;
    while k < v.len() && v[k] < n
        invariant
            k <= v@.len(),
            v@ == s0,
            forall|i: int| 0 <= i < k ==> (#[trigger] s0[i]) < n,
        decreases v@.len() - k,
    {
        k += 1;
    }
    if k < v.len() && v[k] == n {
        assert(s0[k as int] == n);
        return;
    }
    v.insert(k, n);
    proof {
        let s = v@;
        assert forall|i: int, j: int| 0 <= i < j < s.len() implies (#[trigger] s[i]) < (#[trigger] s[j]) by {
            let a = if i < k { i } else { i - 1 };
            let b = if j < k { j } else { j - 1 };
            if i != k && j != k {
                assert(s0[a] < s0[b]);
            } else if i == k {
                assert(s[j] == s0[j - 1]);
                if j - 1 > k {
                    assert(s0[k as int] < s0[j - 1]);
                }
            }
        }
        assert forall|m: i32| #[trigger] s.contains(m) <==> s0.contains(m) || m == n by {
            if s0.contains(m) {
                let i = choose|i: int| 0 <= i < s0.len() && s0[i] == m;
                assert(s[if i < k { i } else { i + 1 }] == m);
            }
            if s.contains(m) && m != n {
                let i = choose|i: int| 0 <= i < s.len() && s[i] == m;
                assert(s0[if i < k { i } else { i - 1 }] == m);
            }
            assert(s[k as int] == n);
        }
    }
}

/// Where the rectangles of two lists meet, one rectangle for each pair that does.
fn pieces(lower: &Vec<Rect>, upper: &Vec<Rect>) -> (out: Vec<Rect>)
    ensures
        forall|x: int, y: int| #[trigger] some_holds(out@, x, y) <==> both_hold(lower@, upper@, x, y),
        forall|i: int| 0 <= i < out@.len() ==> (#[trigger] out@[i]).x_min < out@[i].x_max && out@[i].y_min < out@[i].y_max,
{
    let mut out: Vec<Rect> = Vec::new();
    let mut i: usize = 0;
    while i < lower.len()
        invariant
            i <= lower@.len(),
            forall|x: int, y: int| #[trigger] some_holds(out@, x, y) <==> some_holds(lower@.take(i as int), x, y) && some_holds(upper@, x, y),
            forall|k: int| 0 <= k < out@.len() ==> (#[trigger] out@[k]).x_min < out@[k].x_max && out@[k].y_min < out@[k].y_max,
        decreases lower@.len() - i,
    {
        let a = lower[i];
        let ghost before = out@;
        let mut j: usize = 0;
        while j < upper.len()
            invariant
                j <= upper@.len(),
                i < lower@.len(),
                a == lower@[i as int],
                forall|x: int, y: int| #[trigger] some_holds(out@, x, y) <==> some_holds(before, x, y) || (holds(a, x, y) && some_holds(upper@.take(j as int), x, y)),
                forall|k: int| 0 <= k < out@.len() ==> (#[trigger] out@[k]).x_min < out@[k].x_max && out@[k].y_min < out@[k].y_max,
            decreases upper@.len() - j,
        {
            let b = upper[j];
            let r = Rect::new(
                if a.x_min > b.x_min { a.x_min } else { b.x_min },
                if a.y_min > b.y_min { a.y_min } else { b.y_min },
                if a.x_max < b.x_max { a.x_max } else { b.x_max },
                if a.y_max < b.y_max { a.y_max } else { b.y_max },
            );
            let ghost o0 = out@;
            if r.x_min < r.x_max && r.y_min < r.y_max {
                out.push(r);
            }
            proof {
                assert(upper@.take(j + 1) =~= upper@.take(j as int).push(b));
                assert forall|x: int, y: int| #[trigger] some_holds(out@, x, y) <==> some_holds(before, x, y) || (holds(a, x, y) && some_holds(upper@.take(j + 1), x, y)) by {
                    lemma_some_push(upper@.take(j as int), b, x, y);
                    lemma_some_push(o0, r, x, y);
                    assert(some_holds(o0, x, y) <==> some_holds(before, x, y) || (holds(a, x, y) && some_holds(upper@.take(j as int), x, y)));
                    assert(holds(r, x, y) <==> holds(a, x, y) && holds(b, x, y));
                }
            }
            j += 1;
        }
        proof {
            assert(upper@.take(j as int) =~= upper@);
            assert(lower@.take(i + 1) =~= lower@.take(i as int).push(a));
            assert forall|x: int, y: int| #[trigger] some_holds(out@, x, y) <==> some_holds(lower@.take(i + 1), x, y) && some_holds(upper@, x, y) by {
                lemma_some_push(lower@.take(i as int), a, x, y);
                assert(some_holds(before, x, y) <==> some_holds(lower@.take(i as int), x, y) && some_holds(upper@, x, y));
            }
        }
        i += 1;
    }
    assert(lower@.take(i as int) =~= lower@);
    out
}

proof fn lemma_some_push(v: Seq<Rect>, r: Rect, x: int, y: int)
    ensures
        some_holds(v.push(r), x, y) <==> some_holds(v, x, y) || holds(r, x, y),
{
    let t = v.push(r);
    if some_holds(v, x, y) {
        let i = choose|i: int| 0 <= i < v.len() && holds(#[trigger] v[i], x, y);
        assert(holds(t[i], x, y));
    }
    if holds(r, x, y) {
        assert(holds(t[v.len() as int], x, y));
    }
    if some_holds(t, x, y) {
        let i = choose|i: int| 0 <= i < t.len() && holds(#[trigger] t[i], x, y);
        if i < v.len() {
            assert(holds(v[i], x, y));
        }
    }
}

/// The columns that a row's pieces hold, as runs.
fn row_runs(p: &Vec<Rect>, y0: i32, y1: i32) -> (runs: IntervalSet)
    requires
        y0 < y1,
        forall|i: int| 0 <= i < p@.len() ==> (#[trigger] p@[i]).y_min <= y0 || p@[i].y_min >= y1,
        forall|i: int| 0 <= i < p@.len() ==> (#[trigger] p@[i]).y_max <= y0 || p@[i].y_max >= y1,
    ensures
        runs.wf(),
        forall|x: int, y: int| y0 <= y < y1 ==> (#[trigger] some_holds(p@, x, y) <==> covers(runs.0@, x)),
{
    let mut runs = IntervalSet::new();
    let mut i: usize = 0;
    while i < p.len()
        invariant
            i <= p@.len(),
            y0 < y1,
            runs.wf(),
            forall|i: int| 0 <= i < p@.len() ==> (#[trigger] p@[i]).y_min <= y0 || p@[i].y_min >= y1,
            forall|i: int| 0 <= i < p@.len() ==> (#[trigger] p@[i]).y_max <= y0 || p@[i].y_max >= y1,
            forall|x: int, y: int| y0 <= y < y1 ==> (#[trigger] some_holds(p@.take(i as int), x, y) <==> covers(runs.0@, x)),
        decreases p@.len() - i,
    {
        let r = p[i];
        let ghost before = runs.0@;
        if r.y_min <= y0 && r.y_max >= y1 {
            runs.add(r.x_min, r.x_max);
        }
        proof {
            assert(p@.take(i + 1) =~= p@.take(i as int).push(r));
            assert forall|x: int, y: int| y0 <= y < y1 implies (#[trigger] some_holds(p@.take(i + 1), x, y) <==> covers(runs.0@, x)) by {
                lemma_some_push(p@.take(i as int), r, x, y);
                assert(some_holds(p@.take(i as int), x, y) <==> covers(before, x));
                if r.y_min <= y0 && r.y_max >= y1 {
                    assert(covers(runs.0@, x) <==> covers(before, x) || r.x_min <= x < r.x_max);
                }
            }
        }
        i += 1;
    }
    assert(p@.take(i as int) =~= p@);
    runs
}


/// The region below a row.
spec fn below_row(p: Seq<Rect>, y0: int) -> spec_fn(int, int) -> bool {
    |x: int, y: int| some_holds(p, x, y) && y < y0
}

/// The region below a row, and of the rows up to another what is left of a column.
spec fn below_and_left(p: Seq<Rect>, y0: int, y1: int, b: int) -> spec_fn(int, int) -> bool {
    |x: int, y: int| some_holds(p, x, y) && (y < y0 || (y < y1 && x < b))
}

/// Where the first run that is left starts.
spec fn next_start(runs: Seq<(i32, i32)>, m: int) -> int {
    if m < runs.len() { runs[m].0 as int } else { i32::MAX + 1 }
}

/// Adds the slabs of some rows whose columns are the same runs.
fn add_rows(p: &Vec<Rect>, runs: &IntervalSet, y0: i32, y1: i32, out: &mut Vec<Rect>)
    requires
        y0 < y1,
        runs.wf(),
        forall|x: int, y: int| y0 <= y < y1 ==> (#[trigger] some_holds(p@, x, y) <==> covers(runs.0@, x)),
        are_slabs(below_row(p@, y0 as int), old(out)@),
        forall|i: int| 0 <= i < old(out)@.len() ==> (#[trigger] old(out)@[i]).y_max <= y0,
    ensures
        are_slabs(below_row(p@, y1 as int), final(out)@),
        forall|i: int| 0 <= i < final(out)@.len() ==> (#[trigger] final(out)@[i]).y_max <= y1,
{
    let ghost v = runs.0@;
    proof {
        let f = below_row(p@, y0 as int);
        let g = below_and_left(p@, y0 as int, y1 as int, next_start(v, 0));
        assert forall|x: int, y: int| f(x, y) <==> #[trigger] g(x, y) by {
            if g(x, y) && y >= y0 {
                assert(covers(v, x));
                let i = choose|i: int| 0 <= i < v.len() && (#[trigger] v[i]).0 <= x < v[i].1;
                if i > 0 {
                    assert(v[0].1 < v[i].0);
                }
            }
        }
        lemma_same_region(f, g, out@);
    }
    let mut m: usize = 0;
    while m < runs.0.len()
        invariant
            y0 < y1,
            v == runs.0@,
            intervals_wf(v),
            m <= v.len(),
            forall|x: int, y: int| y0 <= y < y1 ==> (#[trigger] some_holds(p@, x, y) <==> covers(v, x)),
            are_slabs(below_and_left(p@, y0 as int, y1 as int, next_start(v, m as int)), out@),
            forall|i: int| 0 <= i < out@.len() ==> ((#[trigger] out@[i]).y_max <= y0 || (out@[i].y_max == y1 && out@[i].x_max < next_start(v, m as int))) && out@[i].y_min <= y0,
        decreases v.len() - m,
    {
        let (a, b) = runs.0[m];
        let ghost f = below_and_left(p@, y0 as int, y1 as int, next_start(v, m as int));
        let ghost g = below_and_left(p@, y0 as int, y1 as int, next_start(v, m + 1));
        let ghost s = out@;
        proof {
            lemma_next_run(p@, v, m as int, y0 as int, y1 as int);
        }
        let mut k: usize = 0;
        while k < out.len() && !(out[k].x_min == a && out[k].x_max == b && out[k].y_max == y0)
            invariant
                k <= out@.len(),
                out@ == s,
                forall|i: int| 0 <= i < k ==> !((#[trigger] s[i]).x_min == a && s[i].x_max == b && s[i].y_max == y0),
            decreases out@.len() - k,
        {
            k += 1;
        }
        if k < out.len() {
            proof {
                assert(s[k as int].x_min == a && s[k as int].x_max == b && s[k as int].y_max == y0);
                assert(is_below_or_left(s, y0 as int, a as int));
                lemma_extend(f, s, k as int, y1 as int, g);
            }
            let r = out[k];
            out.set(k, Rect::new(a, r.y_min, b, y1));
            assert(out@ =~= s.update(k as int, (Rect { y_max: y1, ..s[k as int] })));
        } else {
            let r = Rect::new(a, y0, b, y1);
            proof {
                assert(is_as_wide_as_the_region(g, r));
                assert(is_below_or_left(s, y0 as int, a as int));
                lemma_push(f, s, r, g);
            }
            out.push(r);
        }
        m += 1;
        assert forall|i: int| 0 <= i < out@.len() implies ((#[trigger] out@[i]).y_max <= y0 || (out@[i].y_max == y1 && out@[i].x_max < next_start(v, m as int))) && out@[i].y_min <= y0 by {
            assert(b < next_start(v, m as int));
            if i < s.len() {
                assert(s[i].y_min <= y0);
            }
        }
    }
    proof {
        let f = below_and_left(p@, y0 as int, y1 as int, next_start(v, m as int));
        let g = below_row(p@, y1 as int);
        assert forall|x: int, y: int| f(x, y) <==> #[trigger] g(x, y) by {
            if g(x, y) && y >= y0 {
                assert(covers(v, x));
            }
        }
        lemma_same_region(f, g, out@);
    }
}

/// What the next run adds to the region.
proof fn lemma_next_run(p: Seq<Rect>, v: Seq<(i32, i32)>, m: int, y0: int, y1: int)
    requires
        y0 < y1,
        intervals_wf(v),
        0 <= m < v.len(),
        forall|x: int, y: int| y0 <= y < y1 ==> (#[trigger] some_holds(p, x, y) <==> covers(v, x)),
    ensures
        v[m].0 < v[m].1 < next_start(v, m + 1),
        ({
            let f = below_and_left(p, y0, y1, next_start(v, m));
            let g = below_and_left(p, y0, y1, next_start(v, m + 1));
            &&& forall|x: int, y: int| #[trigger] g(x, y) <==> f(x, y) || (v[m].0 <= x < v[m].1 && y0 <= y < y1)
            &&& forall|y: int| y0 <= y < y1 ==> !#[trigger] g(v[m].0 - 1, y) && !g(v[m].1 as int, y)
        }),
{
    let f = below_and_left(p, y0, y1, next_start(v, m));
    let g = below_and_left(p, y0, y1, next_start(v, m + 1));
    let (a, b) = v[m];
    assert forall|x: int, y: int| #[trigger] g(x, y) <==> f(x, y) || (a <= x < b && y0 <= y < y1) by {
        if y0 <= y < y1 {
            if a <= x < b {
                assert(v[m].0 <= x < v[m].1);
                assert(covers(v, x));
                assert(some_holds(p, x, y));
            }
            if g(x, y) && !(a <= x < b) {
                assert(covers(v, x));
                let i = choose|i: int| 0 <= i < v.len() && (#[trigger] v[i]).0 <= x < v[i].1;
                if i < m {
                    assert(v[i].1 < v[m].0);
                } else if i > m + 1 {
                    assert(v[m + 1].1 < v[i].0);
                }
            }
        }
    }
    assert forall|y: int| y0 <= y < y1 implies !#[trigger] g(a - 1, y) && !g(b as int, y) by {
        if some_holds(p, a - 1, y) {
            assert(covers(v, a - 1));
            let i = choose|i: int| 0 <= i < v.len() && (#[trigger] v[i]).0 <= a - 1 < v[i].1;
            if i < m {
                assert(v[i].1 < v[m].0);
            } else if i > m {
                assert(v[m].1 < v[i].0);
            }
        }
        if some_holds(p, b as int, y) {
            assert(covers(v, b as int));
            let i = choose|i: int| 0 <= i < v.len() && (#[trigger] v[i]).0 <= b < v[i].1;
            if i < m {
                assert(v[i].1 < v[m].0);
            } else if i > m {
                assert(v[m].1 < v[i].0);
            }
        }
    }
}

proof fn lemma_same_region(f: spec_fn(int, int) -> bool, g: spec_fn(int, int) -> bool, s: Seq<Rect>)
    requires
        are_slabs(f, s),
        forall|x: int, y: int| f(x, y) <==> #[trigger] g(x, y),
    ensures
        are_slabs(g, s),
{
    assert forall|x: int, y: int| #[trigger] g(x, y) <==> some_holds(s, x, y) by {
        assert(f(x, y) <==> some_holds(s, x, y));
    }
    assert forall|i: int| 0 <= i < s.len() implies is_as_wide_as_the_region(g, #[trigger] s[i]) by {
        assert(is_as_wide_as_the_region(f, s[i]));
        assert forall|y: int| s[i].y_min <= y < s[i].y_max implies !#[trigger] g(s[i].x_min - 1, y) && !g(s[i].x_max as int, y) by {
            assert(!f(s[i].x_min - 1, y) && !f(s[i].x_max as int, y));
        }
    }
}

/// The region where two lists of rectangles meet, as slabs: each as wide as the region is in its rows and
/// as high as that width lasts, from the bottom up and from left to right.
pub fn intersection_rectangles(lower: &Vec<Rect>, upper: &Vec<Rect>) -> (out: Vec<Rect>)
    ensures
        are_slabs(meeting_region(lower@, upper@), out@),
        out@ == slabs(lower@, upper@),
{
    let p = pieces(lower, upper);
    let mut ys: Vec<i32> = Vec::new();
    let mut i: usize = 0;
    while i < p.len()
        invariant
            i <= p@.len(),
            ascends(ys@),
            forall|j: int| 0 <= j < i ==> ys@.contains((#[trigger] p@[j]).y_min) && ys@.contains(p@[j].y_max),
        decreases p@.len() - i,
    {
        put_in_order(&mut ys, p[i].y_min);
        put_in_order(&mut ys, p[i].y_max);
        i += 1;
    }
    let mut out: Vec<Rect> = Vec::new();
    let ghost start = if ys@.len() > 0 { ys@[0] as int } else { 0 };
    proof {
        let f = below_row(p@, start);
        assert forall|x: int, y: int| #[trigger] f(x, y) <==> some_holds(out@, x, y) by {
            if f(x, y) {
                let j = choose|j: int| 0 <= j < p@.len() && holds(#[trigger] p@[j], x, y);
                assert(ys@.contains(p@[j].y_min));
                let k = choose|k: int| 0 <= k < ys@.len() && ys@[k] == p@[j].y_min;
                assert(ys@[0] <= ys@[k]);
            }
        }
        assert(are_slabs(f, out@));
    }
    let mut k: usize = 0;
    while ys.len() > 0 && k < ys.len() - 1
        invariant
            ascends(ys@),
            forall|j: int| 0 <= j < p@.len() ==> ys@.contains((#[trigger] p@[j]).y_min) && ys@.contains(p@[j].y_max),
            k < ys@.len() || (k == 0 && ys@.len() == 0),
            are_slabs(below_row(p@, if ys@.len() > 0 { ys@[k as int] as int } else { 0 }), out@),
            ys@.len() > 0 ==> forall|i: int| 0 <= i < out@.len() ==> (#[trigger] out@[i]).y_max <= ys@[k as int],
        decreases ys@.len() - k,
    {
        let (y0, y1) = (ys[k], ys[k + 1]);
        proof {
            assert(ys@[k as int] < ys@[k + 1]);
            assert forall|i: int| 0 <= i < p@.len() implies ((#[trigger] p@[i]).y_min <= y0 || p@[i].y_min >= y1) && (p@[i].y_max <= y0 || p@[i].y_max >= y1) by {
                let a = choose|a: int| 0 <= a < ys@.len() && ys@[a] == p@[i].y_min;
                let b = choose|b: int| 0 <= b < ys@.len() && ys@[b] == p@[i].y_max;
                if a < k { assert(ys@[a] < ys@[k as int]); } else if a > k + 1 { assert(ys@[k + 1] < ys@[a]); }
                if b < k { assert(ys@[b] < ys@[k as int]); } else if b > k + 1 { assert(ys@[k + 1] < ys@[b]); }
            }
        }
        let runs = row_runs(&p, y0, y1);
        add_rows(&p, &runs, y0, y1, &mut out);
        k += 1;
    }
    proof {
        let f = below_row(p@, if ys@.len() > 0 { ys@[k as int] as int } else { 0 });
        let g = meeting_region(lower@, upper@);
        assert forall|x: int, y: int| f(x, y) <==> #[trigger] g(x, y) by {
            assert(some_holds(p@, x, y) <==> both_hold(lower@, upper@, x, y));
            if g(x, y) {
                let j = choose|j: int| 0 <= j < p@.len() && holds(#[trigger] p@[j], x, y);
                assert(ys@.contains(p@[j].y_max));
                let m = choose|m: int| 0 <= m < ys@.len() && ys@[m] == p@[j].y_max;
                assert(m <= k);
                if m < k {
                    assert(ys@[m] < ys@[k as int]);
                }
            }
        }
        lemma_same_region(f, g, out@);
        a_region_has_one_list_of_slabs(g, out@, slabs(lower@, upper@));
    }
    out
}

} // verus!
