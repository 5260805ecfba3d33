//! Expanding a routed edge into a full three-dimensional path.
//!
//! Layer assignment leaves each grid point carrying a layer, but two consecutive points may sit on
//! different layers with nothing between them. This pass inserts the points between, so that every
//! step of the path moves either in the plane or by exactly one layer. The inserted points take the
//! next point's coordinates: a step that changes layer is a move in the plane first and then a stack
//! of vias at the destination.

use crate::lists::{all_of, lemma_all_next, lemma_all_none};
use vstd::prelude::*;

verus! {

/// One grid point.
#[derive(Debug, Clone, Copy, PartialEq, Eq, Structural)]
pub struct Point3D {
    pub x: i16,
    pub y: i16,
    pub layer: i16,
}

/// How a route was produced.
#[derive(Debug, Clone, Copy, PartialEq, Eq, Structural)]
pub enum RouteType {
    NoRoute,
    LRoute,
    ZRoute,
    MazeRoute,
}

/// One edge of a net's tree.
#[derive(Debug, PartialEq, Eq)]
pub struct Edge3D {
    /// The Manhattan distance between the edge's two end nodes; an edge without length is left alone.
    pub len: i32,
    pub route_type: RouteType,
    /// Number of steps: one less than the number of points the walk reads.
    pub routelen: i32,
    pub grids: Vec<Point3D>,
}

/// The points at `(x, y)` from layer `from` up to, but without, layer `to`.
pub open spec fn rising(x: i16, y: i16, from: int, to: int) -> Seq<Point3D> {
    Seq::new(
        (if from < to { to - from } else { 0 }) as nat,
        |i: int| Point3D { x, y, layer: (from + i) as i16 },
    )
}

/// The points at `(x, y)` from layer `from` down to, but without, layer `to`.
pub open spec fn falling(x: i16, y: i16, from: int, to: int) -> Seq<Point3D> {
    Seq::new(
        (if from > to { from - to } else { 0 }) as nat,
        |i: int| Point3D { x, y, layer: (from - i) as i16 },
    )
}

/// The points inserted between two consecutive points of a route: at the second point's position,
/// from the first point's layer towards the second's, which is left out.
pub open spec fn between(a: Point3D, b: Point3D) -> Seq<Point3D> {
    rising(b.x, b.y, a.layer as int, b.layer as int) + falling(b.x, b.y, a.layer as int, b.layer as int)
}

/// The first `n` steps of a route with the points between inserted; the last point is left out.
pub open spec fn expanded(grids: Seq<Point3D>, n: int) -> Seq<Point3D>
    decreases n,
{
    if n <= 0 {
        Seq::empty()
    } else {
        expanded(grids, n - 1).push(grids[n - 1]) + between(grids[n - 1], grids[n])
    }
}

/// A route of `n` steps as a full three-dimensional path.
pub open spec fn full_path(grids: Seq<Point3D>, n: int) -> Seq<Point3D> {
    expanded(grids, n).push(grids[n])
}

/// The number of steps a route length stands for.
pub open spec fn steps(routelen: i32) -> int {
    if routelen < 0 { 0 } else { routelen as int }
}

/// Whether an edge can be expanded: it has the points its route length speaks of, and the result's
/// length is a machine integer.
pub open spec fn expandable(e: Edge3D) -> bool {
    e.len > 0 ==> steps(e.routelen) < e.grids@.len() && full_path(e.grids@, steps(e.routelen)).len() <= i32::MAX
}

/// What expanding makes of an edge: one whose length is not positive is left entirely untouched.
pub open spec fn expanded_from(new: Edge3D, old_edge: Edge3D) -> bool {
    if old_edge.len <= 0 {
        new == old_edge
    } else {
        let path = full_path(old_edge.grids@, steps(old_edge.routelen));
        &&& new.len == old_edge.len
        &&& new.route_type == RouteType::MazeRoute
        &&& new.routelen == path.len() - 1
        &&& new.grids@ == path
    }
}

/// Appends the points at `(x, y)` from layer `from` up to, but without, layer `to`.
pub fn push_rising(out: &mut Vec<Point3D>, x: i16, y: i16, from: i32, to: i32)
    requires
        from < to ==> i16::MIN <= from && to <= i16::MAX + 1,
    ensures
        final(out)@ == old(out)@ + rising(x, y, from as int, to as int),
{
    let mut l: i32 = from;
    while l < to
        invariant
            from <= l,
            l <= to || l == from,
            from < to ==> i16::MIN <= from && to <= i16::MAX + 1,
            out@ == old(out)@ + rising(x, y, from as int, l as int),
        decreases to - l,
    {
        out.push(Point3D { x, y, layer: l as i16 });
        l += 1;
        assert(out@ =~= old(out)@ + rising(x, y, from as int, l as int));
    }
    assert(out@ =~= old(out)@ + rising(x, y, from as int, to as int));
}

/// Appends the points at `(x, y)` from layer `from` down to, but without, layer `to`.
pub fn push_falling(out: &mut Vec<Point3D>, x: i16, y: i16, from: i32, to: i32)
    requires
        from > to ==> from <= i16::MAX && to >= i16::MIN - 1,
    ensures
        final(out)@ == old(out)@ + falling(x, y, from as int, to as int),
{
    let mut l: i32 = from;
    while l > to
        invariant
            l <= from,
            l >= to || l == from,
            from > to ==> from <= i16::MAX && to >= i16::MIN - 1,
            out@ == old(out)@ + falling(x, y, from as int, l as int),
        decreases l - to,
    {
        out.push(Point3D { x, y, layer: l as i16 });
        l -= 1;
        assert(out@ =~= old(out)@ + falling(x, y, from as int, l as int));
    }
    assert(out@ =~= old(out)@ + falling(x, y, from as int, to as int));
}

/// Expands one edge in place. An edge whose length is not positive keeps its points, its route
/// length and its route type.
pub fn convert_edge_to_full_3d(edge: &mut Edge3D, _num_layers: usize)
    requires
        expandable(*old(edge)),
    ensures
        expanded_from(*final(edge), *old(edge)),
{
    if edge.len <= 0 {
        return;
    }
    let n: usize = if edge.routelen < 0 { 0 } else { edge.routelen as usize };
    let ghost g = edge.grids@;
    let mut tmp: Vec<Point3D> = Vec::new();
    let mut j: usize = 0;
    while j < n
        invariant
            j <= n < g.len(),
            edge.grids@ == g,
            tmp@ == expanded(g, j as int),
        decreases n - j,
    {
        let (a, b) = (edge.grids[j], edge.grids[j + 1]);
        tmp.push(a);
        push_rising(&mut tmp, b.x, b.y, a.layer as i32, b.layer as i32);
        push_falling(&mut tmp, b.x, b.y, a.layer as i32, b.layer as i32);
        j += 1;
        assert(tmp@ =~= expanded(g, j as int));
    }
    tmp.push(edge.grids[n]);
    edge.routelen = tmp.len() as i32 - 1;
    edge.grids = tmp;
    edge.route_type = RouteType::MazeRoute;
}

/// Expands every edge of every net, in order.
pub fn convert_to_full_3d_type2(nets: &mut Vec<Vec<Edge3D>>, num_layers: usize)
    requires
        forall|i: int, j: int| 0 <= i < old(nets)@.len() && 0 <= j < old(nets)@[i]@.len() ==> expandable(#[trigger] old(nets)@[i]@[j]),
    ensures
        final(nets)@.len() == old(nets)@.len(),
        forall|i: int| 0 <= i < old(nets)@.len() ==> (#[trigger] final(nets)@[i])@.len() == old(nets)@[i]@.len(),
        forall|i: int, j: int|
            0 <= i < old(nets)@.len() && 0 <= j < old(nets)@[i]@.len() ==> expanded_from(
                #[trigger] final(nets)@[i]@[j], old(nets)@[i]@[j]),
{
    let ghost v = nets@;
    let mut i: usize = 0;
    while i < nets.len()
        invariant
            i <= nets@.len() == v.len(),
            v == old(nets)@,
            forall|a: int, j: int| 0 <= a < v.len() && 0 <= j < v[a]@.len() ==> expandable(#[trigger] v[a]@[j]),
            forall|a: int| 0 <= a < v.len() ==> (#[trigger] nets@[a])@.len() == v[a]@.len(),
            forall|a: int| i <= a < v.len() ==> #[trigger] nets@[a] == v[a],
            forall|a: int, j: int| 0 <= a < i && 0 <= j < v[a]@.len() ==> expanded_from(#[trigger] nets@[a]@[j], v[a]@[j]),
        decreases v.len() - i,
    {
        let mut j: usize = 0;
        while j < nets[i].len()
            invariant
                i < nets@.len() == v.len(),
                v == old(nets)@,
                j <= v[i as int]@.len(),
                forall|a: int, j: int| 0 <= a < v.len() && 0 <= j < v[a]@.len() ==> expandable(#[trigger] v[a]@[j]),
                forall|a: int| 0 <= a < v.len() ==> (#[trigger] nets@[a])@.len() == v[a]@.len(),
                forall|a: int| i < a < v.len() ==> #[trigger] nets@[a] == v[a],
                forall|b: int| j <= b < v[i as int]@.len() ==> #[trigger] nets@[i as int]@[b] == v[i as int]@[b],
                forall|a: int, b: int| 0 <= a < i && 0 <= b < v[a]@.len() ==> expanded_from(#[trigger] nets@[a]@[b], v[a]@[b]),
                forall|b: int| 0 <= b < j ==> expanded_from(#[trigger] nets@[i as int]@[b], v[i as int]@[b]),
            decreases v[i as int]@.len() - j,
        {
            let ghost before = nets@;
            assert(nets@[i as int]@[j as int] == v[i as int]@[j as int]);
            assert(expandable(v[i as int]@[j as int]));
            convert_edge_to_full_3d(&mut nets[i][j], num_layers);
            assert(forall|a: int| 0 <= a < v.len() && a != i ==> #[trigger] nets@[a] == before[a]);
            j += 1;
        }
        i += 1;
    }
}

/// Every step of a full path moves in the plane or by exactly one layer, never both, and the path
/// starts and ends where the route did.
pub proof fn full_path_moves_one_way_at_a_time(grids: Seq<Point3D>, n: int)
    requires
        0 <= n < grids.len(),
    ensures
        ({
            let p = full_path(grids, n);
            &&& p.first() == grids[0]
            &&& p.last() == grids[n]
            &&& forall|i: int| 0 <= i < p.len() - 1 ==> one_way(#[trigger] p[i], p[i + 1])
        }),
    decreases n,
{
    let p = full_path(grids, n);
    if n > 0 {
        full_path_moves_one_way_at_a_time(grids, n - 1);
        let q = full_path(grids, n - 1);
        let (a, b) = (grids[n - 1], grids[n]);
        let m = between(a, b);
        assert(p =~= q + m.push(b));
        assert forall|i: int| 0 <= i < p.len() - 1 implies one_way(#[trigger] p[i], p[i + 1]) by {
            if i + 1 < q.len() {
                assert(p[i] == q[i] && p[i + 1] == q[i + 1]);
            } else if i + 1 == q.len() {
                assert(p[i] == a);
                if m.len() == 0 {
                    assert(p[i + 1] == b);
                    assert(a.layer == b.layer);
                } else {
                    assert(p[i + 1] == m[0]);
                }
            } else {
                let k = i - q.len();
                assert(p[i] == m[k]);
                if k + 1 < m.len() {
                    assert(p[i + 1] == m[k + 1]);
                } else {
                    assert(p[i + 1] == b);
                }
            }
        }
    }
}

/// Whether a step keeps its layer, or keeps its position and changes its layer by one.
pub open spec fn one_way(a: Point3D, b: Point3D) -> bool {
    a.layer == b.layer || (a.x == b.x && a.y == b.y && (b.layer == a.layer + 1 || b.layer == a.layer - 1))
}

/// Every point but the last is kept and followed by the layers passed on the way to the next.
pub proof fn every_point_is_kept_and_followed_by_its_vias(grids: Seq<Point3D>, n: int)
    requires
        0 <= n,
    ensures
        expanded(grids, n) == all_of(
            n,
            |k: int| seq![grids[k]] + between(grids[k], grids[k + 1]),
        ),
    decreases n,
{
    let f = |k: int| seq![grids[k]] + between(grids[k], grids[k + 1]);
    if n > 0 {
        every_point_is_kept_and_followed_by_its_vias(grids, n - 1);
        lemma_all_next(n - 1, f);
    } else {
        lemma_all_none(f);
    }
    assert(expanded(grids, n) =~= all_of(n, f));
}

} // verus!
