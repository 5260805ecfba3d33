//! Laying out a net by patterns: a graph of straight and bent paths over its Steiner tree, the cheapest
//! layers for each, and the routing tree of that choice.

use vstd::prelude::*;
use vstd::string::StringExecFns;

use crate::cugr::access::PatternError;
use crate::cugr::cost::{at_most, costs_add_up, Cost};
use crate::cugr::design::LayerRange;
use crate::cugr::geo::{Interval, Point};
use crate::cugr::grid_graph::GridGraph;
use crate::cugr::grnet::GrNet;
use crate::cugr::layers::{H, V};
use crate::cugr::steiner::{is_acyclic, no_layers, ranked, snodes, SNode, SteinerTree};
use crate::cugr::tree::{is_ordered, GrTree, GrTreeNode};

verus! {

// ---- the graph of paths ----

/// A node of the graph: a cell, the layers that its pins need, whether it is a bend, its children, and
/// for each child the nodes that lead to it: the child itself, or two bends.
#[derive(Debug)]
pub struct DagNode {
    pub p: Point,
    pub index: usize,
    pub fixed: Interval,
    pub optional: bool,
    pub children: Vec<usize>,
    pub paths: Vec<Vec<usize>>,
}

/// The graph of paths.
#[derive(Debug)]
pub struct Dag {
    pub nodes: Vec<DagNode>,
    pub root: usize,
}

/// A node with its children and paths as places.
#[verifier::ext_equal]
pub struct DNode {
    pub p: Point,
    pub fixed: Interval,
    pub optional: bool,
    pub children: Seq<int>,
    pub paths: Seq<Seq<int>>,
}

pub open spec fn as_ints(s: Seq<usize>) -> Seq<int> {
    s.map_values(|v: usize| v as int)
}

pub open spec fn dnode(n: DagNode) -> DNode {
    DNode { p: n.p, fixed: n.fixed, optional: n.optional, children: as_ints(n.children@), paths: n.paths@.map_values(|v: Vec<usize>| as_ints(v@)) }
}

pub open spec fn dnodes(nodes: Seq<DagNode>) -> Seq<DNode> {
    nodes.map_values(|n: DagNode| dnode(n))
}

/// Whether every node is numbered by its place.
pub open spec fn is_numbered(nodes: Seq<DagNode>) -> bool {
    forall|n: int| 0 <= n < nodes.len() ==> (#[trigger] nodes[n]).index == n
}

/// A node without links.
pub open spec fn lone(p: Point, fixed: Interval, optional: bool) -> DNode {
    DNode { p, fixed, optional, children: Seq::empty(), paths: Seq::empty() }
}

/// A bend that leads to a node.
pub open spec fn bend(p: Point, end: int) -> DNode {
    DNode { p, fixed: no_layers(), optional: true, children: Seq::empty(), paths: seq![seq![end]] }
}

/// A graph with the paths from one node to another added: straight where they are aligned, else by two
/// bends, first at the end's x and the start's y, then at the start's x and the end's y.
pub open spec fn with_paths(d: Seq<DNode>, start: int, end: int) -> Seq<DNode> {
    let (s, e) = (d[start].p, d[end].p);
    if s.x == e.x || s.y == e.y {
        d.update(start, DNode { paths: d[start].paths.push(seq![end]), ..d[start] })
    } else {
        let n = d.len() as int;
        d.update(start, DNode { paths: d[start].paths.push(seq![n, n + 1]), ..d[start] }).push(bend(Point { x: e.x, y: s.y }, end)).push(
            bend(Point { x: s.x, y: e.y }, end),
        )
    }
}

/// A graph with a Steiner node and all below it added: the node, then its subtrees, then the paths from
/// its parent to it.
pub open spec fn with_node(d: Seq<DNode>, t: Seq<SNode>, rank: Seq<int>, parent: Option<int>, s: int) -> Seq<DNode>
    decreases rank[s], 1int, 0int,
{
    let cur = d.len() as int;
    let a = with_kids(d.push(lone(t[s].p, t[s].fixed, false)), t, rank, cur, s, 0);
    match parent {
        Some(q) => with_paths(a.update(q, DNode { children: a[q].children.push(cur), ..a[q] }), q, cur),
        None => a,
    }
}

/// A graph with the children of a Steiner node from the `k`-th on added.
pub open spec fn with_kids(d: Seq<DNode>, t: Seq<SNode>, rank: Seq<int>, cur: int, s: int, k: int) -> Seq<DNode>
    decreases rank[s], 0int, t[s].children.len() - k,
{
    if 0 <= k < t[s].children.len() && 0 <= rank[t[s].children[k]] < rank[s] {
        with_kids(with_node(d, t, rank, Some(cur), t[s].children[k]), t, rank, cur, s, k + 1)
    } else {
        d
    }
}

/// Whether every path leads to a node that ranks lower.
pub open spec fn paths_ranked(d: Seq<DNode>, rank: Seq<int>) -> bool {
    &&& rank.len() == d.len()
    &&& forall|n: int| 0 <= n < d.len() ==> #[trigger] rank[n] >= 0
    &&& forall|n: int, c: int, k: int|
        0 <= n < d.len() && 0 <= c < d[n].paths.len() && 0 <= k < d[n].paths[c].len() ==> 0 <= #[trigger] d[n].paths[c][k] < d.len() && rank[d[n].paths[c][k]] < rank[n]
}

/// Whether no path leads back to where it comes from.
pub open spec fn is_dag(d: Seq<DNode>) -> bool {
    exists|rank: Seq<int>| #[trigger] paths_ranked(d, rank)
}

/// The graph of a Steiner tree.
pub open spec fn dag_of(t: SteinerTree) -> Seq<DNode> {
    with_node(Seq::empty(), snodes(t.nodes@), choose|rank: Seq<int>| #[trigger] ranked(snodes(t.nodes@), rank), None, t.root as int)
}

impl Dag {
    pub fn new() -> (d: Dag)
        ensures
            d.nodes@ == Seq::<DagNode>::empty(),
            d.root == 0,
    {
        Dag { nodes: Vec::new(), root: 0 }
    }

    /// Adds a node without links and gives its place.
    pub fn add(&mut self, p: Point, fixed: Interval, optional: bool) -> (index: usize)
        ensures
            index == old(self).nodes@.len(),
            dnodes(final(self).nodes@) == dnodes(old(self).nodes@).push(lone(p, fixed, optional)),
            is_numbered(old(self).nodes@) ==> is_numbered(final(self).nodes@),
            final(self).nodes@.len() == old(self).nodes@.len() + 1,
            final(self).root == old(self).root,
    {
        let index: usize = self.nodes.len();
        let ghost d0 = dnodes(self.nodes@);
        self.nodes.push(DagNode { p, index, fixed, optional, children: Vec::new(), paths: Vec::new() });
        proof {
            let d = dnodes(self.nodes@);
            assert(d =~= d0.push(lone(p, fixed, optional))) by {
                assert(d[index as int] =~= lone(p, fixed, optional));
            }
        }
        index
    }

    /// Adds the paths from one node to another: straight where they are aligned, else by two bends,
    /// first at the end's x and the start's y, then at the start's x and the end's y.
    pub fn construct_paths(&mut self, start: usize, end: usize)
        requires
            start < old(self).nodes@.len(),
            end < old(self).nodes@.len(),
            is_numbered(old(self).nodes@),
        ensures
            dnodes(final(self).nodes@) == with_paths(dnodes(old(self).nodes@), start as int, end as int),
            is_numbered(final(self).nodes@),
            final(self).nodes@.len() >= old(self).nodes@.len(),
            final(self).root == old(self).root,
    {
        let s = self.nodes[start].p;
        let e = self.nodes[end].p;
        let ghost d0 = dnodes(self.nodes@);
        let ghost n0 = self.nodes@;
        let mut path: Vec<usize> = Vec::new();
        if s.x == e.x || s.y == e.y {
            path.push(end);
            let ghost want = seq![end as int];
            assert(as_ints(path@) =~= want);
            self.nodes[start].paths.push(path);
            proof {
                let d = dnodes(self.nodes@);
                let w = DNode { paths: d0[start as int].paths.push(want), ..d0[start as int] };
                assert(d[start as int].paths =~= d0[start as int].paths.push(want));
                assert(d =~= d0.update(start as int, w));
                assert(is_numbered(self.nodes@)) by {
                    assert forall|n: int| 0 <= n < self.nodes@.len() implies (#[trigger] self.nodes@[n]).index == n by {
                        assert(n0[n].index == n);
                    }
                }
            }
            return;
        }
        let a: usize = self.add(Point { x: e.x, y: s.y }, Interval { low: i32::MAX, high: i32::MIN }, true);
        let mut to_end: Vec<usize> = Vec::new();
        to_end.push(end);
        assert(as_ints(to_end@) =~= seq![end as int]);
        let ghost d1 = dnodes(self.nodes@);
        let ghost n1 = self.nodes@;
        self.nodes[a].paths.push(to_end);
        let ghost d2 = dnodes(self.nodes@);
        let ghost n2 = self.nodes@;
        proof {
            assert(d1[a as int].paths =~= Seq::<Seq<int>>::empty());
            assert(d2[a as int].paths =~= seq![seq![end as int]]);
            assert(d2 =~= d1.update(a as int, bend(Point { x: e.x, y: s.y }, end as int)));
            assert forall|n: int| 0 <= n < n2.len() implies (#[trigger] n2[n]).index == n by {
                assert(n1[n].index == n);
            }
        }
        let b: usize = self.add(Point { x: s.x, y: e.y }, Interval { low: i32::MAX, high: i32::MIN }, true);
        let mut to_end: Vec<usize> = Vec::new();
        to_end.push(end);
        assert(as_ints(to_end@) =~= seq![end as int]);
        let ghost d3 = dnodes(self.nodes@);
        let ghost n3 = self.nodes@;
        self.nodes[b].paths.push(to_end);
        let ghost d4 = dnodes(self.nodes@);
        let ghost n4 = self.nodes@;
        proof {
            assert(d3[b as int].paths =~= Seq::<Seq<int>>::empty());
            assert(d4[b as int].paths =~= seq![seq![end as int]]);
            assert(d4 =~= d3.update(b as int, bend(Point { x: s.x, y: e.y }, end as int)));
            assert forall|n: int| 0 <= n < n4.len() implies (#[trigger] n4[n]).index == n by {
                assert(n3[n].index == n);
            }
        }
        path.push(a);
        path.push(b);
        let ghost want = seq![a as int, b as int];
        assert(as_ints(path@) =~= want);
        assert(d4[start as int] == d0[start as int]);
        self.nodes[start].paths.push(path);
        proof {
            let d = dnodes(self.nodes@);
            assert(d[start as int].paths =~= d0[start as int].paths.push(want));
            let w = with_paths(d0, start as int, end as int);
            assert(d[start as int] =~= w[start as int]);
            assert forall|n: int| 0 <= n < d.len() implies #[trigger] d[n] == w[n] by {
                if n != start {
                    assert(d[n] == d4[n]);
                    if n == a {
                        assert(d4[n] == d2[n]);
                    } else if n < a {
                        assert(d4[n] == d0[n]);
                    }
                }
            }
            assert(d =~= w);
            assert forall|n: int| 0 <= n < self.nodes@.len() implies (#[trigger] self.nodes@[n]).index == n by {
                assert(n4[n].index == n);
            }
        }
    }
}

proof fn lemma_ranked_add(d: Seq<DNode>, r: Seq<int>, n: DNode, v: int)
    requires
        paths_ranked(d, r),
        n.paths.len() == 0,
        v >= 0,
    ensures
        paths_ranked(d.push(n), r.push(v)),
{
    let (e, s) = (d.push(n), r.push(v));
    assert forall|m: int, c: int, k: int| 0 <= m < e.len() && 0 <= c < e[m].paths.len() && 0 <= k < e[m].paths[c].len() implies 0 <= #[trigger] e[m].paths[c][k] < e.len()
        && s[e[m].paths[c][k]] < s[m] by {
        assert(d[m].paths[c][k] == e[m].paths[c][k]);
    }
}

proof fn lemma_ranked_child(d: Seq<DNode>, r: Seq<int>, q: int, children: Seq<int>)
    requires
        paths_ranked(d, r),
        0 <= q < d.len(),
    ensures
        paths_ranked(d.update(q, DNode { children, ..d[q] }), r),
{
    let e = d.update(q, DNode { children, ..d[q] });
    assert forall|m: int, c: int, k: int| 0 <= m < e.len() && 0 <= c < e[m].paths.len() && 0 <= k < e[m].paths[c].len() implies 0 <= #[trigger] e[m].paths[c][k] < e.len()
        && r[e[m].paths[c][k]] < r[m] by {
        assert(d[m].paths[c][k] == e[m].paths[c][k]);
    }
}

/// The ranks after paths from `q` to `cur` are added: a bend ranks just above the node it leads to.
spec fn ranks_with_paths(d: Seq<DNode>, r: Seq<int>, q: int, cur: int) -> Seq<int> {
    if d[q].p.x == d[cur].p.x || d[q].p.y == d[cur].p.y { r } else { r.push(r[cur] + 1).push(r[cur] + 1) }
}

proof fn lemma_ranked_paths(d: Seq<DNode>, r: Seq<int>, q: int, cur: int)
    requires
        paths_ranked(d, r),
        0 <= q < d.len(),
        0 <= cur < d.len(),
        r[q] > r[cur] + 1,
    ensures
        paths_ranked(with_paths(d, q, cur), ranks_with_paths(d, r, q, cur)),
{
    let (e, s) = (with_paths(d, q, cur), ranks_with_paths(d, r, q, cur));
    let last = d[q].paths.len() as int;
    assert forall|m: int, c: int, k: int| 0 <= m < e.len() && 0 <= c < e[m].paths.len() && 0 <= k < e[m].paths[c].len() implies 0 <= #[trigger] e[m].paths[c][k] < e.len()
        && s[e[m].paths[c][k]] < s[m] by {
        if m < d.len() {
            if m == q && c == last {
            } else {
                assert(d[m].paths[c][k] == e[m].paths[c][k]);
            }
        } else {
            assert(e[m].paths[c][k] == cur);
        }
    }
}

fn lay_node(dag: &mut Dag, t: &SteinerTree, parent: Option<usize>, s: usize, Ghost(rank): Ghost<Seq<int>>, Ghost(r0): Ghost<Seq<int>>) -> (r1: Ghost<Seq<int>>)
    requires
        ranked(snodes(t.nodes@), rank),
        s < t.nodes@.len(),
        is_numbered(old(dag).nodes@),
        paths_ranked(dnodes(old(dag).nodes@), r0),
        parent matches Some(q) ==> q < old(dag).nodes@.len() && r0[q as int] >= 2 * rank[s as int] + 2,
    ensures
        dnodes(final(dag).nodes@) == with_node(dnodes(old(dag).nodes@), snodes(t.nodes@), rank, crate::cugr::steiner::as_int(parent), s as int),
        is_numbered(final(dag).nodes@),
        paths_ranked(dnodes(final(dag).nodes@), r1@),
        final(dag).nodes@.len() > old(dag).nodes@.len(),
        final(dag).root == old(dag).root,
        forall|i: int| 0 <= i < r0.len() ==> #[trigger] r1@[i] == r0[i],
    decreases rank[s as int],
{
    let ghost st = snodes(t.nodes@);
    let ghost d0 = dnodes(dag.nodes@);
    assert(rank[s as int] >= 0);
    let cur: usize = dag.add(t.nodes[s].p, t.nodes[s].fixed, false);
    let ghost mut r = r0.push(2 * rank[s as int]);
    proof {
        lemma_ranked_add(d0, r0, lone(st[s as int].p, st[s as int].fixed, false), 2 * rank[s as int]);
    }
    let ghost d1 = dnodes(dag.nodes@);
    let ghost all = with_kids(d1, st, rank, cur as int, s as int, 0);
    let mut k: usize = 0;
    assert(st[s as int].children.len() == t.nodes@[s as int].children@.len());
    while k < t.nodes[s].children.len()
        invariant
            st == snodes(t.nodes@),
            ranked(st, rank),
            s < t.nodes@.len(),
            st[s as int].children.len() == t.nodes@[s as int].children@.len(),
            k <= t.nodes@[s as int].children@.len(),
            is_numbered(dag.nodes@),
            dag.root == old(dag).root,
            cur == d0.len(),
            cur < dag.nodes@.len(),
            d0.len() == r0.len(),
            paths_ranked(dnodes(dag.nodes@), r),
            forall|i: int| 0 <= i < r0.len() ==> #[trigger] r[i] == r0[i],
            r[cur as int] == 2 * rank[s as int],
            with_kids(dnodes(dag.nodes@), st, rank, cur as int, s as int, k as int) == all,
        decreases t.nodes@[s as int].children@.len() - k,
    {
        let c: usize = t.nodes[s].children[k];
        assert(st[s as int].children[k as int] == c);
        assert(rank[c as int] >= 0);
        let ghost before = r;
        let out = lay_node(dag, t, Some(cur), c, Ghost(rank), Ghost(r));
        proof {
            r = out@;
            assert(before.len() > cur);
            assert forall|i: int| 0 <= i < r0.len() implies #[trigger] r[i] == r0[i] by {
                assert(before[i] == r0[i]);
            }
        }
        k += 1;
    }
    match parent {
        Some(q) => {
            let ghost a = dnodes(dag.nodes@);
            dag.nodes[q].children.push(cur);
            let ghost b = dnodes(dag.nodes@);
            proof {
                assert(a =~= all);
                assert(b[q as int].children =~= a[q as int].children.push(cur as int));
                assert(b =~= a.update(q as int, DNode { children: a[q as int].children.push(cur as int), ..a[q as int] }));
                lemma_ranked_child(a, r, q as int, a[q as int].children.push(cur as int));
                assert(r[q as int] == r0[q as int]);
                lemma_ranked_paths(b, r, q as int, cur as int);
            }
            dag.construct_paths(q, cur);
            Ghost(ranks_with_paths(b, r, q as int, cur as int))
        },
        None => Ghost(r),
    }
}

/// The graph of paths of a Steiner tree: for every node its subtrees, then the paths from its parent.
pub fn construct_routing_dag(steiner: &SteinerTree) -> (dag: Dag)
    requires
        is_acyclic(snodes(steiner.nodes@)),
        steiner.root < steiner.nodes@.len(),
    ensures
        dnodes(dag.nodes@) == dag_of(*steiner),
        is_dag(dnodes(dag.nodes@)),
        is_numbered(dag.nodes@),
        dag.root == 0,
        dag.nodes@.len() > 0,
{
    let mut dag = Dag::new();
    let ghost rank = choose|rank: Seq<int>| #[trigger] ranked(snodes(steiner.nodes@), rank);
    assert(dnodes(dag.nodes@) =~= Seq::empty());
    assert(paths_ranked(dnodes(dag.nodes@), Seq::empty()));
    let r = lay_node(&mut dag, steiner, None, steiner.root, Ghost(rank), Ghost(Seq::empty()));
    assert(paths_ranked(dnodes(dag.nodes@), r@));
    dag
}

// ---- the cheapest layers of a node ----

/// The cheapest way to a child on a layer: its cost, and which of the child's paths it is, -1 for none.
#[derive(Debug, Clone, Copy)]
pub struct Choice<C> {
    pub cost: C,
    pub path: i32,
}

/// The path of a child and the layer that it is on, both -1 for none.
#[derive(Debug, Clone, Copy, PartialEq, Eq, Structural)]
pub struct BestPath {
    pub path: i32,
    pub layer: i32,
}

/// What a node costs on each layer, and there the best path to each child.
#[derive(Debug)]
pub struct NodeTable<C> {
    pub costs: Vec<C>,
    pub best_paths: Vec<Vec<BestPath>>,
}

/// What a node costs on each layer, and there the best path to each child.
#[verifier::ext_equal]
pub struct Table<C> {
    pub costs: Seq<C>,
    pub best: Seq<Seq<BestPath>>,
}

pub open spec fn table<C>(t: NodeTable<C>) -> Table<C> {
    Table { costs: t.costs@, best: t.best_paths@.map_values(|v: Vec<BestPath>| v@) }
}

/// What a node's costs are made of: for each child and layer the cheapest way, and for each layer the
/// cost of the via to the one above.
#[verifier::ext_equal]
pub struct Parts<C> {
    pub kids: Seq<Seq<Choice<C>>>,
    pub vias: Seq<C>,
    pub zero: C,
    pub max: C,
}

/// The cost of the vias from the lowest layer to a layer.
pub open spec fn stack_cost<C: Cost>(p: Parts<C>, layer: int) -> C
    decreases layer,
{
    if layer <= 0 { p.zero } else { stack_cost(p, layer - 1).sum(p.vias[layer - 1]) }
}

/// No path.
pub open spec fn no_path() -> BestPath {
    BestPath { path: -1i32, layer: -1i32 }
}

/// The cheapest way to a child on the layers from `low` up to but not including `hi`: the first of equals.
pub open spec fn cheapest<C: Cost>(p: Parts<C>, c: int, low: int, hi: int) -> (C, BestPath)
    decreases hi - low,
{
    if hi <= low {
        (p.max, no_path())
    } else {
        let b = cheapest(p, c, low, hi - 1);
        let k = p.kids[c][hi - 1];
        if k.cost.below(b.0) { (k.cost, BestPath { path: k.path, layer: (hi - 1) as i32 }) } else { b }
    }
}

/// A cost with the cheapest ways to the first `n` children added.
pub open spec fn with_children<C: Cost>(p: Parts<C>, base: C, low: int, hi: int, n: int) -> C
    decreases n,
{
    if n <= 0 { base } else { with_children(p, base, low, hi, n - 1).sum(cheapest(p, n - 1, low, hi).0) }
}

/// The cost of reaching from layer `low` to `layer` and all children in between.
pub open spec fn reach_cost<C: Cost>(p: Parts<C>, low: int, layer: int) -> C {
    with_children(p, stack_cost(p, layer).difference(stack_cost(p, low)), low, layer + 1, p.kids.len() as int)
}

/// The best paths to all children on the layers from `low` up to but not including `hi`.
pub open spec fn reach_paths<C: Cost>(p: Parts<C>, low: int, hi: int) -> Seq<BestPath> {
    Seq::new(p.kids.len(), |c: int| cheapest(p, c, low, hi).1)
}

/// A table before any layer is priced.
pub open spec fn blank<C>(p: Parts<C>, layers: int) -> Table<C> {
    Table {
        costs: Seq::new(layers as nat, |l: int| p.max),
        best: Seq::new(layers as nat, |l: int| if l >= 1 { Seq::new(p.kids.len(), |c: int| no_path()) } else { Seq::empty() }),
    }
}

/// A table after the layers from `low` up to but not including `hi` are reached from `low`: from the layer
/// `top` on, where that is strictly cheaper.
pub open spec fn reached<C: Cost>(p: Parts<C>, t: Table<C>, low: int, top: int, hi: int) -> Table<C>
    decreases hi - low,
{
    if hi <= low {
        t
    } else {
        let b = reached(p, t, low, top, hi - 1);
        let l = hi - 1;
        if l >= top && reach_cost(p, low, l).below(b.costs[l]) {
            Table { costs: b.costs.update(l, reach_cost(p, low, l)), best: b.best.update(l, reach_paths(p, low, hi)) }
        } else {
            b
        }
    }
}

/// A table after each layer from `l` on, from the top down, takes the layer above where that is strictly
/// cheaper.
pub open spec fn filled_down<C: Cost>(t: Table<C>, l: int, layers: int) -> Table<C>
    decreases layers - l,
{
    if l >= layers - 1 {
        t
    } else {
        let b = filled_down(t, l + 1, layers);
        if b.costs[l + 1].below(b.costs[l]) {
            Table { costs: b.costs.update(l, b.costs[l + 1]), best: b.best.update(l, b.best[l + 1]) }
        } else {
            b
        }
    }
}

/// The table after the passes from the lowest `n` layers.
pub open spec fn passes<C: Cost>(p: Parts<C>, top: int, layers: int, n: int) -> Table<C>
    decreases n,
{
    if n <= 0 { blank(p, layers) } else { filled_down(reached(p, passes(p, top, layers, n - 1), n - 1, top, layers), n - 1, layers) }
}

/// The layers that a node must reach: its pins' own, the lower end no higher than the top layer and the
/// upper end no lower than the net's lowest; the net's range where it has no pin.
pub open spec fn span_to_reach(fixed: Interval, range: LayerRange, layers: int) -> Interval {
    if fixed.low <= fixed.high {
        Interval {
            low: if fixed.low < layers - 1 { fixed.low } else { (layers - 1) as i32 },
            high: if fixed.high > range.min_layer { fixed.high } else { range.min_layer },
        }
    } else {
        Interval { low: range.min_layer, high: range.max_layer }
    }
}

/// The table of a node.
pub open spec fn settled<C: Cost>(p: Parts<C>, fixed: Interval, range: LayerRange, layers: int) -> Table<C> {
    let span = span_to_reach(fixed, range, layers);
    passes(p, span.high as int, layers, span.low + 1)
}

pub open spec fn parts<C>(kids: Seq<Vec<Choice<C>>>, vias: Seq<C>, zero: C, max: C) -> Parts<C> {
    Parts { kids: kids.map_values(|v: Vec<Choice<C>>| v@), vias, zero, max }
}

fn stack_costs<C: Cost>(vias: &Vec<C>, layers: usize, Ghost(p): Ghost<Parts<C>>, zero: C) -> (r: Vec<C>)
    requires
        p.vias == vias@,
        p.zero == zero,
        vias@.len() + 1 >= layers,
    ensures
        r@.len() == layers,
        forall|l: int| 0 <= l < layers ==> #[trigger] r@[l] == stack_cost(p, l),
{
    let mut r: Vec<C> = Vec::new();
    let mut l: usize = 0;
    while l < layers
        invariant
            p.vias == vias@,
            p.zero == zero,
            vias@.len() + 1 >= layers,
            l <= layers,
            r@.len() == l,
            forall|k: int| 0 <= k < l ==> #[trigger] r@[k] == stack_cost(p, k),
        decreases layers - l,
    {
        if l == 0 {
            r.push(zero);
        } else {
            assert(r@[l - 1] == stack_cost(p, l - 1));
            let c = r[l - 1].plus(vias[l - 1]);
            r.push(c);
        }
        l += 1;
    }
    r
}

fn copy_paths(v: &Vec<BestPath>) -> (r: Vec<BestPath>)
    ensures
        r@ == v@,
{
    crate::vecs::copy_vec(v)
}

/// Whether a table has an entry for every layer.
pub open spec fn covers<C>(t: Table<C>, layers: int) -> bool {
    t.costs.len() == layers && t.best.len() == layers
}

fn reach_up<C: Cost>(t: &mut NodeTable<C>, kids: &Vec<Vec<Choice<C>>>, stack: &Vec<C>, low: usize, top: i32, layers: usize, max: C, Ghost(p): Ghost<Parts<C>>)
    requires
        p.kids == kids@.map_values(|v: Vec<Choice<C>>| v@),
        p.max == max,
        forall|c: int| 0 <= c < kids@.len() ==> (#[trigger] kids@[c])@.len() == layers,
        layers <= i32::MAX,
        low <= layers,
        stack@.len() == layers,
        forall|l: int| 0 <= l < layers ==> #[trigger] stack@[l] == stack_cost(p, l),
        covers(table(*old(t)), layers as int),
    ensures
        table(*final(t)) == reached(p, table(*old(t)), low as int, top as int, layers as int),
        covers(table(*final(t)), layers as int),
{
    let ghost t0 = table(*t);
    let mut min: Vec<C> = Vec::new();
    let mut best: Vec<BestPath> = Vec::new();
    let mut c: usize = 0;
    while c < kids.len()
        invariant
            c <= kids@.len(),
            min@.len() == c,
            best@.len() == c,
            forall|k: int| 0 <= k < c ==> #[trigger] min@[k] == max,
            forall|k: int| 0 <= k < c ==> #[trigger] best@[k] == no_path(),
        decreases kids@.len() - c,
    {
        min.push(max);
        best.push(BestPath { path: -1, layer: -1 });
        c += 1;
    }
    assert(p.kids.len() == kids@.len());
    let mut l: usize = low;
    assert forall|k: int| 0 <= k < kids@.len() implies #[trigger] min@[k] == cheapest(p, k, low as int, low as int).0 by {}
    while l < layers
        invariant
            p.kids == kids@.map_values(|v: Vec<Choice<C>>| v@),
            p.kids.len() == kids@.len(),
            p.max == max,
            forall|c: int| 0 <= c < kids@.len() ==> (#[trigger] kids@[c])@.len() == layers,
            layers <= i32::MAX,
            low <= l <= layers,
            stack@.len() == layers,
            forall|k: int| 0 <= k < layers ==> #[trigger] stack@[k] == stack_cost(p, k),
            min@.len() == kids@.len(),
            best@.len() == kids@.len(),
            forall|k: int| 0 <= k < kids@.len() ==> #[trigger] min@[k] == cheapest(p, k, low as int, l as int).0,
            forall|k: int| 0 <= k < kids@.len() ==> #[trigger] best@[k] == cheapest(p, k, low as int, l as int).1,
            covers(table(*t), layers as int),
            table(*t) == reached(p, t0, low as int, top as int, l as int),
        decreases layers - l,
    {
        let mut c: usize = 0;
        while c < kids.len()
            invariant
                p.kids == kids@.map_values(|v: Vec<Choice<C>>| v@),
                p.kids.len() == kids@.len(),
                p.max == max,
                forall|c: int| 0 <= c < kids@.len() ==> (#[trigger] kids@[c])@.len() == layers,
                layers <= i32::MAX,
                low <= l < layers,
                c <= kids@.len(),
                min@.len() == kids@.len(),
                best@.len() == kids@.len(),
                forall|k: int| 0 <= k < kids@.len() ==> #[trigger] min@[k] == cheapest(p, k, low as int, if k < c { l + 1 } else { l as int }).0,
                forall|k: int| 0 <= k < kids@.len() ==> #[trigger] best@[k] == cheapest(p, k, low as int, if k < c { l + 1 } else { l as int }).1,
            decreases kids@.len() - c,
        {
            assert(kids@[c as int]@.len() == layers);
            let k = kids[c][l];
            assert(p.kids[c as int][l as int] == k);
            assert(min@[c as int] == cheapest(p, c as int, low as int, l as int).0);
            assert(best@[c as int] == cheapest(p, c as int, low as int, l as int).1);
            if k.cost.is_below(min[c]) {
                min.set(c, k.cost);
                best.set(c, BestPath { path: k.path, layer: l as i32 });
            }
            c += 1;
        }
        if l as i32 >= top {
            let mut cost = stack[l].minus(stack[low]);
            let ghost base = cost;
            let mut c: usize = 0;
            while c < min.len()
                invariant
                    c <= min@.len() == kids@.len(),
                    forall|k: int| 0 <= k < kids@.len() ==> #[trigger] min@[k] == cheapest(p, k, low as int, l + 1).0,
                    cost == with_children(p, base, low as int, l + 1, c as int),
                decreases min@.len() - c,
            {
                assert(min@[c as int] == cheapest(p, c as int, low as int, l + 1).0);
                cost = cost.plus(min[c]);
                c += 1;
            }
            assert(cost == reach_cost(p, low as int, l as int));
            let ghost before = table(*t);
            if cost.is_below(t.costs[l]) {
                let paths = copy_paths(&best);
                proof {
                    assert(paths@ =~= reach_paths(p, low as int, l + 1));
                }
                t.costs.set(l, cost);
                t.best_paths.set(l, paths);
                proof {
                    let now = table(*t);
                    assert(now.best =~= before.best.update(l as int, reach_paths(p, low as int, l + 1)));
                    assert(now =~= reached(p, t0, low as int, top as int, l + 1));
                }
            }
        }
        l += 1;
    }
}

fn fill_down<C: Cost>(t: &mut NodeTable<C>, low: usize, layers: usize)
    requires
        covers(table(*old(t)), layers as int),
    ensures
        table(*final(t)) == filled_down(table(*old(t)), low as int, layers as int),
        covers(table(*final(t)), layers as int),
{
    let ghost t0 = table(*t);
    if layers == 0 || low >= layers - 1 {
        return;
    }
    let mut l: usize = layers - 1;
    while l > low
        invariant
            low <= l <= layers - 1,
            covers(table(*t), layers as int),
            table(*t) == filled_down(t0, l as int, layers as int),
        decreases l,
    {
        l -= 1;
        let ghost before = table(*t);
        assert(before.costs.len() == t.costs@.len() && before.best.len() == t.best_paths@.len());
        if t.costs[l + 1].is_below(t.costs[l]) {
            let above = t.costs[l + 1];
            let paths = copy_paths(&t.best_paths[l + 1]);
            assert(paths@ == before.best[l + 1]);
            t.costs.set(l, above);
            t.best_paths.set(l, paths);
            proof {
                let now = table(*t);
                assert(now.best =~= before.best.update(l as int, before.best[l + 1]));
                assert(now =~= filled_down(t0, l as int, layers as int));
            }
        }
    }
}

/// The costs of a node on every layer, from the cheapest ways to its children and the costs of the vias.
///
/// From each layer up to the lower end of the span that the node must reach, and walking up from it: each
/// child's cheapest way so far, and once at or above the upper end of the span the vias from there and
/// those ways are a candidate for the layer. Then each layer takes the layer above where that is
/// strictly cheaper, from the top down.
pub fn settle_layers<C: Cost>(kids: &Vec<Vec<Choice<C>>>, vias: &Vec<C>, fixed: Interval, range: LayerRange, layers: usize, zero: C, max: C) -> (t: NodeTable<C>)
    requires
        layers <= i32::MAX,
        forall|c: int| 0 <= c < kids@.len() ==> (#[trigger] kids@[c])@.len() == layers,
        vias@.len() + 1 >= layers,
    ensures
        table(t) == settled(parts(kids@, vias@, zero, max), fixed, range, layers as int),
        covers(table(t), layers as int),
{
    let ghost p = parts(kids@, vias@, zero, max);
    let stack = stack_costs(vias, layers, Ghost(p), zero);
    let mut t = NodeTable { costs: Vec::new(), best_paths: Vec::new() };
    let mut l: usize = 0;
    while l < layers
        invariant
            l <= layers,
            t.costs@ =~= Seq::new(l as nat, |k: int| max),
            t.best_paths@.len() == l,
            forall|k: int| 0 <= k < l ==> (#[trigger] t.best_paths@[k])@ == (if k >= 1 { Seq::new(kids@.len(), |c: int| no_path()) } else { Seq::empty() }),
        decreases layers - l,
    {
        t.costs.push(max);
        if l >= 1 {
            let none = crate::vecs::filled(BestPath { path: -1, layer: -1 }, kids.len());
            assert(none@ =~= Seq::new(kids@.len(), |c: int| no_path()));
            t.best_paths.push(none);
        } else {
            t.best_paths.push(Vec::new());
        }
        l += 1;
    }
    proof {
        let b = blank(p, layers as int);
        assert(table(t).costs =~= b.costs);
        assert forall|k: int| 0 <= k < layers implies #[trigger] table(t).best[k] =~= b.best[k] by {
            assert(t.best_paths@[k]@ == (if k >= 1 { Seq::new(kids@.len(), |c: int| no_path()) } else { Seq::empty() }));
        }
        assert(table(t).best =~= b.best);
        assert(table(t) =~= b);
    }
    let span = if fixed.low <= fixed.high {
        Interval {
            low: if (fixed.low as i64) < layers as i64 - 1 { fixed.low } else { (layers as i64 - 1) as i32 },
            high: if fixed.high > range.min_layer { fixed.high } else { range.min_layer },
        }
    } else {
        Interval { low: range.min_layer, high: range.max_layer }
    };
    assert(span == span_to_reach(fixed, range, layers as int));
    if span.low < 0 {
        return t;
    }
    let mut low: i64 = 0;
    while low <= span.low as i64
        invariant
            p == parts(kids@, vias@, zero, max),
            layers <= i32::MAX,
            forall|c: int| 0 <= c < kids@.len() ==> (#[trigger] kids@[c])@.len() == layers,
            stack@.len() == layers,
            forall|l: int| 0 <= l < layers ==> #[trigger] stack@[l] == stack_cost(p, l),
            0 <= low <= span.low + 1,
            covers(table(t), layers as int),
            table(t) == passes(p, span.high as int, layers as int, low as int),
        decreases span.low + 1 - low,
    {
        let from: usize = low as usize;
        if from < layers {
            reach_up(&mut t, kids, &stack, from, span.high, layers, max, Ghost(p));
            fill_down(&mut t, from, layers);
        }
        low += 1;
    }
    t
}

/// After the fill no layer from `low` on is dearer than the one above it, whatever costs are, provided
/// that none is below itself.
pub proof fn a_filled_layer_is_no_dearer_than_the_one_above<C: Cost>(t: Table<C>, low: int, layers: int, l: int)
    requires
        covers(t, layers),
        forall|a: C| !#[trigger] a.below(a),
        0 <= low <= l < layers - 1,
    ensures
        !filled_down(t, low, layers).costs[l + 1].below(filled_down(t, low, layers).costs[l]),
        covers(filled_down(t, low, layers), layers),
    decreases layers - low,
{
    lemma_fill_covers(t, low, layers);
    if l > low {
        a_filled_layer_is_no_dearer_than_the_one_above(t, low + 1, layers, l);
    } else {
        lemma_fill_covers(t, low + 1, layers);
        let b = filled_down(t, low + 1, layers);
        assert(!b.costs[l + 1].below(b.costs[l + 1]));
    }
}

proof fn lemma_fill_covers<C: Cost>(t: Table<C>, low: int, layers: int)
    requires
        low >= 0,
        covers(t, layers),
    ensures
        covers(filled_down(t, low, layers), layers),
    decreases layers - low,
{
    if low < layers - 1 {
        lemma_fill_covers(t, low + 1, layers);
    }
}

// ---- what a node's costs are ----

/// A way to lay a node out: its vias from one layer up to another, and a layer in between for each child.
pub struct Layout {
    pub low: int,
    pub high: int,
    pub on: Seq<int>,
}

/// Whether a layout reaches what a node must reach: all layers of its pins and the net's lowest, or the net's whole
/// range where it has no pin.
pub open spec fn reaches_pins(fixed: Interval, range: LayerRange, layers: int, y: Layout) -> bool {
    &&& 0 <= y.low <= y.high < layers
    &&& if fixed.low <= fixed.high {
        y.low <= fixed.low && y.high >= fixed.high && y.high >= range.min_layer
    } else {
        y.low <= range.min_layer && y.high >= range.max_layer
    }
}

/// Whether a layout reaches what a node must reach, and its children on the way.
pub open spec fn is_layout<C>(p: Parts<C>, fixed: Interval, range: LayerRange, layers: int, y: Layout) -> bool {
    &&& reaches_pins(fixed, range, layers, y)
    &&& y.on.len() == p.kids.len()
    &&& forall|c: int| 0 <= c < y.on.len() ==> y.low <= #[trigger] y.on[c] <= y.high
}

/// What the way to a child on a layer costs: the greatest cost where the child is on no layer.
pub open spec fn way_cost<C>(p: Parts<C>, c: int, layer: int) -> C {
    if layer < 0 { p.max } else { p.kids[c][layer].cost }
}

/// What the first `n` children of a layout add to a cost.
pub open spec fn with_ways<C: Cost>(p: Parts<C>, base: C, on: Seq<int>, n: int) -> C
    decreases n,
{
    if n <= 0 { base } else { with_ways(p, base, on, n - 1).sum(way_cost(p, n - 1, on[n - 1])) }
}

/// What a layout costs: its vias, and the way to every child on its layer.
pub open spec fn layout_cost<C: Cost>(p: Parts<C>, y: Layout) -> C {
    with_ways(p, stack_cost(p, y.high).difference(stack_cost(p, y.low)), y.on, p.kids.len() as int)
}

/// Whether best paths are those of a layout: the layer of every child between the layout's ends, and the child's
/// path there; none for a child that is on no layer.
pub open spec fn takes<C>(p: Parts<C>, best: Seq<BestPath>, y: Layout) -> bool {
    &&& best.len() == p.kids.len() == y.on.len()
    &&& forall|c: int|
        0 <= c < best.len() ==> (#[trigger] best[c]).layer == y.on[c] && (if y.on[c] < 0 {
            best[c].path == -1 && y.on[c] == -1
        } else {
            best[c].path == p.kids[c][y.on[c]].path && y.low <= y.on[c] <= y.high
        })
}

/// Whether a layer of a table has what a layout costs, and its paths.
pub open spec fn is_laid_as<C: Cost>(p: Parts<C>, t: Table<C>, k: int, y: Layout) -> bool {
    t.costs[k] == layout_cost(p, y) && takes(p, t.best[k], y) && y.low <= k <= y.high
}

/// Whether a layer of a table is that of a layout from one of the lowest `n` layers to the upper end or above, or
/// was not reached.
spec fn is_explained<C: Cost>(p: Parts<C>, t: Table<C>, top: int, layers: int, n: int, k: int) -> bool {
    t.costs[k] == p.max || exists|y: Layout| #[trigger] is_laid_as(p, t, k, y) && 0 <= y.low < n && y.high < layers && top <= y.high
}

spec fn all_explained<C: Cost>(p: Parts<C>, t: Table<C>, top: int, layers: int, n: int) -> bool {
    forall|k: int| 0 <= k < layers ==> #[trigger] is_explained(p, t, top, layers, n, k)
}

proof fn lemma_children_are_ways<C: Cost>(p: Parts<C>, base: C, low: int, hi: int, on: Seq<int>, n: int)
    requires
        0 <= n <= on.len(),
        0 <= low,
        hi <= i32::MAX,
        on.len() == p.kids.len(),
        forall|c: int| 0 <= c < on.len() ==> #[trigger] on[c] == cheapest(p, c, low, hi).1.layer,
    ensures
        with_children(p, base, low, hi, n) == with_ways(p, base, on, n),
    decreases n,
{
    if n > 0 {
        lemma_children_are_ways(p, base, low, hi, on, n - 1);
        lemma_cheapest_is_a_way(p, n - 1, low, hi);
        assert(on[n - 1] == cheapest(p, n - 1, low, hi).1.layer);
    }
}

proof fn lemma_reach_explained<C: Cost>(p: Parts<C>, t: Table<C>, low: int, top: int, hi: int, layers: int)
    requires
        covers(t, layers),
        0 <= low,
        hi <= layers <= i32::MAX,
        all_explained(p, t, top, layers, low + 1),
    ensures
        covers(reached(p, t, low, top, hi), layers),
        all_explained(p, reached(p, t, low, top, hi), top, layers, low + 1),
    decreases hi - low,
{
    if hi > low {
        lemma_reach_explained(p, t, low, top, hi - 1, layers);
        let (a, b) = (reached(p, t, low, top, hi), reached(p, t, low, top, hi - 1));
        let l = hi - 1;
        assert forall|k: int| 0 <= k < layers implies #[trigger] is_explained(p, a, top, layers, low + 1, k) by {
            assert(is_explained(p, b, top, layers, low + 1, k));
            if k == l && l >= top && reach_cost(p, low, l).below(b.costs[l]) {
                let on = Seq::new(p.kids.len(), |c: int| cheapest(p, c, low, hi).1.layer as int);
                let y = Layout { low, high: l, on };
                lemma_children_are_ways(p, stack_cost(p, l).difference(stack_cost(p, low)), low, hi, on, on.len() as int);
                assert forall|c: int| 0 <= c < on.len() implies (#[trigger] a.best[l][c]).layer == y.on[c] && (if y.on[c] < 0 {
                    a.best[l][c].path == -1 && y.on[c] == -1
                } else {
                    a.best[l][c].path == p.kids[c][y.on[c]].path && y.low <= y.on[c] <= y.high
                }) by {
                    lemma_cheapest_is_a_way(p, c, low, hi);
                }
                assert(is_laid_as(p, a, k, y));
            } else {
                assert(a.costs[k] == b.costs[k] && a.best[k] == b.best[k]);
                if b.costs[k] != p.max {
                    let y = choose|y: Layout| #[trigger] is_laid_as(p, b, k, y) && 0 <= y.low < low + 1 && y.high < layers && top <= y.high;
                    assert(is_laid_as(p, a, k, y));
                }
            }
        }
    }
}

proof fn lemma_fill_explained<C: Cost>(p: Parts<C>, t: Table<C>, low: int, from: int, top: int, layers: int)
    requires
        covers(t, layers),
        0 <= low <= from,
        all_explained(p, t, top, layers, low + 1),
    ensures
        covers(filled_down(t, from, layers), layers),
        all_explained(p, filled_down(t, from, layers), top, layers, low + 1),
    decreases layers - from,
{
    if from < layers - 1 {
        lemma_fill_explained(p, t, low, from + 1, top, layers);
        let (a, b) = (filled_down(t, from, layers), filled_down(t, from + 1, layers));
        assert forall|k: int| 0 <= k < layers implies #[trigger] is_explained(p, a, top, layers, low + 1, k) by {
            let source = if k == from && b.costs[from + 1].below(b.costs[from]) { k + 1 } else { k };
            assert(is_explained(p, b, top, layers, low + 1, source));
            assert(a.costs[k] == b.costs[source] && a.best[k] == b.best[source]);
            if b.costs[source] != p.max {
                let y = choose|y: Layout| #[trigger] is_laid_as(p, b, source, y) && 0 <= y.low < low + 1 && y.high < layers && top <= y.high;
                assert(is_laid_as(p, a, k, y));
            }
        }
    }
}

proof fn lemma_passes_explained<C: Cost>(p: Parts<C>, top: int, layers: int, n: int)
    requires
        0 <= layers <= i32::MAX,
    ensures
        covers(passes(p, top, layers, n), layers),
        all_explained(p, passes(p, top, layers, n), top, layers, n),
    decreases n,
{
    if n > 0 {
        let before = passes(p, top, layers, n - 1);
        lemma_passes_explained(p, top, layers, n - 1);
        assert forall|k: int| 0 <= k < layers implies #[trigger] is_explained(p, before, top, layers, n, k) by {
            assert(is_explained(p, before, top, layers, n - 1, k));
        }
        lemma_reach_explained(p, before, n - 1, top, layers, layers);
        lemma_fill_explained(p, reached(p, before, n - 1, top, layers), n - 1, n - 1, top, layers);
    }
}

proof fn lemma_cheapest<C: Cost>(p: Parts<C>, c: int, low: int, hi: int, l: int)
    requires
        costs_add_up::<C>(),
        low <= l < hi,
    ensures
        at_most(cheapest(p, c, low, hi).0, p.kids[c][l].cost),
    decreases hi - low,
{
    let b = cheapest(p, c, low, hi - 1);
    let k = p.kids[c][hi - 1];
    if l < hi - 1 {
        lemma_cheapest(p, c, low, hi - 1, l);
        if k.cost.below(b.0) {
            assert(at_most(k.cost, b.0));
            assert(at_most(k.cost, p.kids[c][l].cost));
        }
    } else {
        assert(!k.cost.below(k.cost));
    }
}

/// The cheapest way is one of the layers', or there is none below the greatest cost.
proof fn lemma_cheapest_is_a_way<C: Cost>(p: Parts<C>, c: int, low: int, hi: int)
    requires
        0 <= low,
        hi <= i32::MAX,
    ensures
        ({
            let (cost, best) = cheapest(p, c, low, hi);
            if best == no_path() {
                cost == p.max
            } else {
                low <= best.layer < hi && cost == p.kids[c][best.layer as int].cost && best.path == p.kids[c][best.layer as int].path
            }
        }),
    decreases hi - low,
{
    if low < hi {
        lemma_cheapest_is_a_way(p, c, low, hi - 1);
    }
}

proof fn lemma_with_children<C: Cost>(p: Parts<C>, base: C, low: int, hi: int, on: Seq<int>, n: int)
    requires
        costs_add_up::<C>(),
        0 <= n <= on.len(),
        0 <= low,
        forall|c: int| 0 <= c < on.len() ==> low <= #[trigger] on[c] < hi,
    ensures
        at_most(with_children(p, base, low, hi, n), with_ways(p, base, on, n)),
    decreases n,
{
    if n > 0 {
        lemma_with_children(p, base, low, hi, on, n - 1);
        lemma_cheapest(p, n - 1, low, hi, on[n - 1]);
        assert(at_most(
            with_children(p, base, low, hi, n - 1).sum(cheapest(p, n - 1, low, hi).0),
            with_ways(p, base, on, n - 1).sum(way_cost(p, n - 1, on[n - 1])),
        ));
    } else {
        assert(!base.below(base));
    }
}

/// Whether no layer of a table is dearer than in another.
spec fn no_dearer<C: Cost>(a: Table<C>, b: Table<C>) -> bool {
    a.costs.len() == b.costs.len() && forall|l: int| 0 <= l < a.costs.len() ==> at_most(#[trigger] a.costs[l], b.costs[l])
}

proof fn lemma_no_dearer_trans<C: Cost>(a: Table<C>, b: Table<C>, c: Table<C>)
    requires
        costs_add_up::<C>(),
        no_dearer(a, b),
        no_dearer(b, c),
    ensures
        no_dearer(a, c),
{
    assert forall|l: int| 0 <= l < a.costs.len() implies at_most(#[trigger] a.costs[l], c.costs[l]) by {
        assert(at_most(a.costs[l], b.costs[l]) && at_most(b.costs[l], c.costs[l]));
    }
}

proof fn lemma_reached_lowers<C: Cost>(p: Parts<C>, t: Table<C>, low: int, top: int, hi: int, layers: int)
    requires
        costs_add_up::<C>(),
        covers(t, layers),
        0 <= low,
        hi <= layers,
    ensures
        covers(reached(p, t, low, top, hi), layers),
        no_dearer(reached(p, t, low, top, hi), t),
        forall|l: int| low <= l < hi && l >= top ==> at_most(#[trigger] reached(p, t, low, top, hi).costs[l], reach_cost(p, low, l)),
    decreases hi - low,
{
    if hi > low {
        lemma_reached_lowers(p, t, low, top, hi - 1, layers);
        let (a, b) = (reached(p, t, low, top, hi), reached(p, t, low, top, hi - 1));
        let l = hi - 1;
        let r = reach_cost(p, low, l);
        assert(!r.below(r));
        assert(forall|c: C| at_most(c, c)) by {
            assert forall|c: C| at_most(c, c) by {
                assert(!c.below(c));
            }
        }
        assert(no_dearer(a, b)) by {
            assert forall|k: int| 0 <= k < a.costs.len() implies at_most(#[trigger] a.costs[k], b.costs[k]) by {
                if k == l && l >= top && r.below(b.costs[l]) {
                    assert(at_most(r, b.costs[l]));
                } else {
                    assert(a.costs[k] == b.costs[k]);
                    assert(!b.costs[k].below(b.costs[k]));
                }
            }
        }
        lemma_no_dearer_trans(a, b, t);
        assert forall|k: int| low <= k < hi && k >= top implies at_most(#[trigger] a.costs[k], reach_cost(p, low, k)) by {
            if k < l {
                assert(a.costs[k] == b.costs[k]);
            }
        }
    } else {
        assert forall|l: int| 0 <= l < t.costs.len() implies at_most(#[trigger] t.costs[l], t.costs[l]) by {
            assert(!t.costs[l].below(t.costs[l]));
        }
    }
}

proof fn lemma_fill_lowers<C: Cost>(t: Table<C>, low: int, layers: int)
    requires
        costs_add_up::<C>(),
        0 <= low,
        covers(t, layers),
    ensures
        covers(filled_down(t, low, layers), layers),
        no_dearer(filled_down(t, low, layers), t),
        forall|l: int, h: int| low <= l <= h < layers ==> at_most(#[trigger] filled_down(t, low, layers).costs[l], #[trigger] t.costs[h]),
    decreases layers - low,
{
    lemma_fill_covers(t, low, layers);
    let a = filled_down(t, low, layers);
    if low < layers - 1 {
        lemma_fill_lowers(t, low + 1, layers);
        lemma_fill_covers(t, low + 1, layers);
        let b = filled_down(t, low + 1, layers);
        assert(no_dearer(a, b)) by {
            assert forall|k: int| 0 <= k < a.costs.len() implies at_most(#[trigger] a.costs[k], b.costs[k]) by {
                assert(!b.costs[k].below(b.costs[k]));
                if k == low && b.costs[low + 1].below(b.costs[low]) {
                    assert(at_most(b.costs[low + 1], b.costs[low]));
                }
            }
        }
        lemma_no_dearer_trans(a, b, t);
        assert(at_most(a.costs[low], b.costs[low + 1])) by {
            assert(!b.costs[low + 1].below(b.costs[low + 1]));
        }
        assert forall|l: int, h: int| low <= l <= h < layers implies at_most(#[trigger] a.costs[l], #[trigger] t.costs[h]) by {
            if l > low {
                assert(a.costs[l] == b.costs[l]);
                assert(at_most(b.costs[l], t.costs[h]));
            } else if h == low {
                assert(at_most(a.costs[l], t.costs[l]));
            } else {
                assert(at_most(b.costs[low + 1], t.costs[h]));
            }
        }
    } else {
        assert forall|l: int| 0 <= l < t.costs.len() implies at_most(#[trigger] t.costs[l], t.costs[l]) by {
            assert(!t.costs[l].below(t.costs[l]));
        }
    }
}

proof fn lemma_passes_lower<C: Cost>(p: Parts<C>, top: int, layers: int, n: int, y: Layout, k: int)
    requires
        costs_add_up::<C>(),
        0 <= layers,
        0 <= y.low < n,
        y.low <= k <= y.high < layers,
        top <= y.high,
        y.on.len() == p.kids.len(),
        forall|c: int| 0 <= c < y.on.len() ==> y.low <= #[trigger] y.on[c] <= y.high,
    ensures
        covers(passes(p, top, layers, n), layers),
        at_most(passes(p, top, layers, n).costs[k], layout_cost(p, y)),
    decreases n,
{
    let before = passes(p, top, layers, n - 1);
    lemma_passes_cover(p, top, layers, n - 1);
    let mid = reached(p, before, n - 1, top, layers);
    lemma_reached_lowers(p, before, n - 1, top, layers, layers);
    lemma_fill_lowers(mid, n - 1, layers);
    let now = passes(p, top, layers, n);
    assert(now == filled_down(mid, n - 1, layers));
    if y.low < n - 1 {
        lemma_passes_lower(p, top, layers, n - 1, y, k);
        lemma_no_dearer_trans(now, mid, before);
        assert(at_most(now.costs[k], before.costs[k]));
    } else {
        lemma_with_children(p, stack_cost(p, y.high).difference(stack_cost(p, y.low)), y.low, y.high + 1, y.on, p.kids.len() as int);
        assert(at_most(reach_cost(p, y.low, y.high), layout_cost(p, y)));
        assert(at_most(mid.costs[y.high], reach_cost(p, y.low, y.high)));
        assert(at_most(now.costs[k], mid.costs[y.high]));
        assert(at_most(now.costs[k], reach_cost(p, y.low, y.high)));
    }
}

proof fn lemma_passes_cover<C: Cost>(p: Parts<C>, top: int, layers: int, n: int)
    requires
        0 <= layers,
    ensures
        covers(passes(p, top, layers, n), layers),
    decreases n,
{
    if n > 0 {
        lemma_passes_cover(p, top, layers, n - 1);
        lemma_reach_covers(p, passes(p, top, layers, n - 1), n - 1, top, layers, layers);
        lemma_fill_covers(reached(p, passes(p, top, layers, n - 1), n - 1, top, layers), n - 1, layers);
    }
}

proof fn lemma_reach_covers<C: Cost>(p: Parts<C>, t: Table<C>, low: int, top: int, hi: int, layers: int)
    requires
        covers(t, layers),
        0 <= low,
        hi <= layers,
    ensures
        covers(reached(p, t, low, top, hi), layers),
    decreases hi - low,
{
    if hi > low {
        lemma_reach_covers(p, t, low, top, hi - 1, layers);
    }
}

/// Wherever a layer of a node was reached, its cost is that of a layout that passes the layer and spans what the
/// node must reach, and its paths are that layout's.
pub proof fn a_layers_cost_is_that_of_its_paths<C: Cost>(p: Parts<C>, fixed: Interval, range: LayerRange, layers: int, t: Table<C>, k: int)
    requires
        t == settled(p, fixed, range, layers),
        0 <= k < layers <= i32::MAX,
        t.costs[k] != p.max,
    ensures
        exists|y: Layout| #[trigger] is_laid_as(p, t, k, y) && reaches_pins(fixed, range, layers, y),
{
    let span = span_to_reach(fixed, range, layers);
    lemma_passes_explained(p, span.high as int, layers, span.low + 1);
    assert(is_explained(p, t, span.high as int, layers, span.low + 1, k));
    let y = choose|y: Layout| #[trigger] is_laid_as(p, t, k, y) && 0 <= y.low < span.low + 1 && y.high < layers && span.high as int <= y.high;
    assert(is_laid_as(p, t, k, y));
}

/// The vias up to a layer cost those up to the one below and the one in between, from nothing on.
pub proof fn each_via_is_paid_once<C: Cost>(p: Parts<C>, layer: int)
    ensures
        stack_cost(p, 0) == p.zero,
        layer >= 0 ==> stack_cost(p, layer + 1) == stack_cost(p, layer).sum(p.vias[layer]),
{
}

/// On every layer a node costs no more than any layout that passes the layer: whichever layers its vias span, and
/// on whichever of them each child's way is laid.
pub proof fn no_layout_is_cheaper<C: Cost>(p: Parts<C>, fixed: Interval, range: LayerRange, layers: int, t: Table<C>, y: Layout, k: int)
    requires
        costs_add_up::<C>(),
        t == settled(p, fixed, range, layers),
        is_layout(p, fixed, range, layers, y),
        y.low <= k <= y.high,
    ensures
        at_most(t.costs[k], layout_cost(p, y)),
{
    let span = span_to_reach(fixed, range, layers);
    lemma_passes_lower(p, span.high as int, layers, span.low + 1, y, k);
}

// ---- the costs of a graph ----

/// What wires and vias cost: for each node, child, path and layer the wire from the node to the path's
/// first node, and for each node and layer the via to the layer above.
#[derive(Debug)]
pub struct RouteCosts<C> {
    pub wires: Vec<Vec<Vec<Vec<C>>>>,
    pub vias: Vec<Vec<C>>,
    pub zero: C,
    pub max: C,
}

/// What of the layers a net may use.
#[derive(Debug)]
pub struct LayerRules {
    pub layers: usize,
    pub min_routing_layer: usize,
    pub directions: Vec<usize>,
    pub range: LayerRange,
}

/// The rules of a grid's layers for a net.
pub fn layer_rules(grid: &GridGraph, net: &GrNet) -> (r: LayerRules)
    ensures
        r.layers == grid.num_layers,
        r.min_routing_layer == grid.min_routing_layer,
        r.directions@ == grid.layer_directions@,
        r.range == net.layer_range,
{
    LayerRules {
        layers: grid.num_layers,
        min_routing_layer: grid.min_routing_layer,
        directions: crate::vecs::copy_vec(&grid.layer_directions),
        range: net.layer_range,
    }
}

/// A graph, how its nodes rank, what wires and vias cost, and the rules of the layers.
pub struct Priced<C> {
    pub d: Seq<DNode>,
    pub rank: Seq<int>,
    pub costs: RouteCosts<C>,
    pub rules: LayerRules,
}

/// The direction from a node to another.
pub open spec fn direction_to(d: Seq<DNode>, node: int, path: int) -> usize {
    if d[node].p.x == d[path].p.x { V } else { H }
}

/// The cheapest of the first `n` paths to a child on a layer, the first of equals: none on a layer of
/// another direction or below the lowest routed, and the greatest cost outside the net's range.
pub open spec fn choice<C: Cost>(x: Priced<C>, node: int, c: int, l: int, n: int) -> Choice<C>
    decreases x.rank[node], 1int, n,
{
    if n <= 0 {
        Choice { cost: x.costs.max, path: -1i32 }
    } else {
        let b = choice(x, node, c, l, n - 1);
        let path = x.d[node].paths[c][n - 1];
        if l >= x.rules.min_routing_layer && x.rules.directions@[l] == direction_to(x.d, node, path) && 0 <= x.rank[path] < x.rank[node] {
            let cost = if x.rules.range.min_layer <= l <= x.rules.range.max_layer {
                node_table(x, path).costs[l].sum(x.costs.wires@[node]@[c]@[n - 1]@[l])
            } else {
                x.costs.max
            };
            if cost.below(b.cost) { Choice { cost, path: (n - 1) as i32 } } else { b }
        } else {
            b
        }
    }
}

/// The parts of a node's costs.
pub open spec fn node_parts<C: Cost>(x: Priced<C>, node: int) -> Parts<C>
    decreases x.rank[node], 2int, 0int,
{
    Parts {
        kids: Seq::new(
            x.d[node].paths.len(),
            |c: int| Seq::new(x.rules.layers as nat, |l: int| choice(x, node, c, l, x.d[node].paths[c].len() as int)),
        ),
        vias: x.costs.vias@[node]@,
        zero: x.costs.zero,
        max: x.costs.max,
    }
}

/// The table of a node of the graph.
pub open spec fn node_table<C: Cost>(x: Priced<C>, node: int) -> Table<C>
    decreases x.rank[node], 3int, 0int,
{
    settled(node_parts(x, node), x.d[node].fixed, x.rules.range, x.rules.layers as int)
}

/// Whether a path to a child may be laid on a layer: a routed one of the path's own direction, in the net's range.
pub open spec fn may_lie<C>(x: Priced<C>, node: int, c: int, k: int, l: int) -> bool {
    let path = x.d[node].paths[c][k];
    &&& 0 <= k < x.d[node].paths[c].len()
    &&& l >= x.rules.min_routing_layer
    &&& (x.rules.directions@[l] == V <==> x.d[node].p.x == x.d[path].p.x)
    &&& x.rules.directions@[l] == V || x.rules.directions@[l] == H
    &&& x.rules.range.min_layer <= l <= x.rules.range.max_layer
}

/// What a path to a child costs on a layer: what its first node costs there, and the wire to it.
pub open spec fn path_cost<C: Cost>(x: Priced<C>, node: int, c: int, k: int, l: int) -> C {
    node_table(x, x.d[node].paths[c][k]).costs[l].sum(x.costs.wires@[node]@[c]@[k]@[l])
}

proof fn lemma_choice<C: Cost>(x: Priced<C>, node: int, c: int, l: int, n: int, k: int)
    requires
        costs_add_up::<C>(),
        paths_ranked(x.d, x.rank),
        0 <= node < x.d.len(),
        0 <= c < x.d[node].paths.len(),
        0 <= k < n <= x.d[node].paths[c].len(),
        may_lie(x, node, c, k, l),
    ensures
        at_most(choice(x, node, c, l, n).cost, path_cost(x, node, c, k, l)),
    decreases n,
{
    let b = choice(x, node, c, l, n - 1);
    let a = choice(x, node, c, l, n);
    assert(!b.cost.below(b.cost));
    if k < n - 1 {
        lemma_choice(x, node, c, l, n - 1, k);
        assert(at_most(a.cost, b.cost)) by {
            if a.cost != b.cost {
                assert(a.cost.below(b.cost));
            }
        }
    } else {
        let path = x.d[node].paths[c][n - 1];
        assert(0 <= x.rank[path] < x.rank[node]);
        let cost = path_cost(x, node, c, k, l);
        assert(!cost.below(cost));
    }
}

proof fn lemma_choice_is_a_path<C: Cost>(x: Priced<C>, node: int, c: int, l: int, n: int)
    requires
        0 <= n <= i32::MAX,
        x.costs.max.below(x.costs.max) == false,
    ensures
        ({
            let a = choice(x, node, c, l, n);
            if a.path == -1 {
                a.cost == x.costs.max
            } else {
                &&& 0 <= a.path < n
                &&& l >= x.rules.min_routing_layer
                &&& x.rules.directions@[l] == (if x.d[node].p.x == x.d[x.d[node].paths[c][a.path as int]].p.x { V } else { H })
                &&& a.cost == (if x.rules.range.min_layer <= l <= x.rules.range.max_layer { path_cost(x, node, c, a.path as int, l) } else { x.costs.max })
            }
        }),
    decreases n,
{
    if n > 0 {
        lemma_choice_is_a_path(x, node, c, l, n - 1);
    }
}

/// On every layer the way kept to a child costs no more than any of the child's paths that may lie there, and is
/// one of them where there is one below the greatest cost.
pub proof fn the_way_to_a_child_is_its_cheapest_path<C: Cost>(x: Priced<C>, node: int, c: int, l: int)
    requires
        costs_add_up::<C>(),
        paths_ranked(x.d, x.rank),
        0 <= node < x.d.len(),
        0 <= c < x.d[node].paths.len(),
        x.d[node].paths[c].len() <= i32::MAX,
        0 <= l < x.rules.layers,
    ensures
        ({
            let way = node_parts(x, node).kids[c][l];
            &&& forall|k: int| #[trigger] may_lie(x, node, c, k, l) ==> at_most(way.cost, path_cost(x, node, c, k, l))
            &&& way.path == -1 ==> way.cost == x.costs.max
            &&& way.path != -1 && way.cost != x.costs.max ==> may_lie(x, node, c, way.path as int, l) && way.cost == path_cost(x, node, c, way.path as int, l)
        }),
{
    let n = x.d[node].paths[c].len() as int;
    assert(!x.costs.max.below(x.costs.max));
    lemma_choice_is_a_path(x, node, c, l, n);
    assert(node_parts(x, node).kids[c][l] == choice(x, node, c, l, n));
    assert forall|k: int| #[trigger] may_lie(x, node, c, k, l) implies at_most(choice(x, node, c, l, n).cost, path_cost(x, node, c, k, l)) by {
        lemma_choice(x, node, c, l, n, k);
    }
}

/// Whether costs are given for every node, child, path and layer of a graph.
pub open spec fn costs_cover<C>(d: Seq<DNode>, costs: RouteCosts<C>, rules: LayerRules) -> bool {
    &&& 0 < rules.layers <= i32::MAX
    &&& rules.directions@.len() == rules.layers
    &&& costs.wires@.len() == d.len()
    &&& costs.vias@.len() == d.len()
    &&& forall|n: int| 0 <= n < d.len() ==> (#[trigger] costs.vias@[n])@.len() + 1 >= rules.layers
    &&& forall|n: int| 0 <= n < d.len() ==> (#[trigger] costs.wires@[n])@.len() == d[n].paths.len()
    &&& forall|n: int, c: int|
        0 <= n < d.len() && 0 <= c < d[n].paths.len() ==> (#[trigger] costs.wires@[n]@[c])@.len() == d[n].paths[c].len() && d[n].paths[c].len() <= i32::MAX
    &&& forall|n: int, c: int, k: int|
        0 <= n < d.len() && 0 <= c < d[n].paths.len() && 0 <= k < d[n].paths[c].len() ==> (#[trigger] costs.wires@[n]@[c]@[k])@.len() == rules.layers
}

/// Whether tables are right where they are filled.
pub open spec fn tables_right<C: Cost>(x: Priced<C>, tables: Seq<NodeTable<C>>) -> bool {
    &&& tables.len() == x.d.len()
    &&& forall|n: int| 0 <= n < tables.len() && (#[trigger] tables[n]).costs@.len() > 0 ==> table(tables[n]) == node_table(x, n) && covers(table(tables[n]), x.rules.layers as int)
}

#[verifier::rlimit(40)]
fn price_node<C: Cost>(dag: &Dag, costs: &RouteCosts<C>, rules: &LayerRules, tables: &mut Vec<NodeTable<C>>, node: usize, Ghost(x): Ghost<Priced<C>>)
    requires
        x.d == dnodes(dag.nodes@),
        x.costs == *costs,
        x.rules == *rules,
        paths_ranked(x.d, x.rank),
        costs_cover(x.d, *costs, *rules),
        node < dag.nodes@.len(),
        tables_right(x, old(tables)@),
    ensures
        tables_right(x, final(tables)@),
        final(tables)@[node as int].costs@.len() > 0,
        forall|n: int| 0 <= n < old(tables)@.len() && (#[trigger] old(tables)@[n]).costs@.len() > 0 ==> final(tables)@[n].costs@.len() > 0,
    decreases x.rank[node as int],
{
    if tables[node].costs.len() > 0 {
        return;
    }
    let ghost tables0 = tables@;
    assert(x.rank[node as int] >= 0);
    assert(x.d[node as int] == dnode(dag.nodes@[node as int]));
    let layers: usize = rules.layers;
    let mut kids: Vec<Vec<Choice<C>>> = Vec::new();
    let mut c: usize = 0;
    while c < dag.nodes[node].paths.len()
        invariant
            x.d == dnodes(dag.nodes@),
            x.costs == *costs,
            x.rules == *rules,
            paths_ranked(x.d, x.rank),
            costs_cover(x.d, *costs, *rules),
            node < dag.nodes@.len(),
            x.d[node as int] == dnode(dag.nodes@[node as int]),
            x.rank[node as int] >= 0,
            layers == rules.layers,
            c <= dag.nodes@[node as int].paths@.len(),
            tables_right(x, tables@),
            tables0.len() == x.d.len(),
            forall|n: int| 0 <= n < tables0.len() && (#[trigger] tables0[n]).costs@.len() > 0 ==> tables@[n].costs@.len() > 0,
            kids@.len() == c,
            forall|j: int| 0 <= j < c ==> (#[trigger] kids@[j])@ == Seq::new(layers as nat, |l: int| choice(x, node as int, j, l, x.d[node as int].paths[j].len() as int)),
        decreases dag.nodes@[node as int].paths@.len() - c,
    {
        let total: usize = dag.nodes[node].paths[c].len();
        assert(x.d[node as int].paths[c as int] == as_ints(dag.nodes@[node as int].paths@[c as int]@));
        assert(x.d[node as int].paths[c as int].len() == total);
        assert(costs.wires@[node as int]@[c as int]@.len() == total);
        let mut row: Vec<Choice<C>> = crate::vecs::filled(Choice { cost: costs.max, path: -1 }, layers);
        let mut k: usize = 0;
        while k < total
            invariant
                x.d == dnodes(dag.nodes@),
                x.costs == *costs,
                x.rules == *rules,
                paths_ranked(x.d, x.rank),
                costs_cover(x.d, *costs, *rules),
                node < dag.nodes@.len(),
                x.d[node as int] == dnode(dag.nodes@[node as int]),
                x.rank[node as int] >= 0,
                layers == rules.layers,
                c < dag.nodes@[node as int].paths@.len(),
                x.d[node as int].paths[c as int] == as_ints(dag.nodes@[node as int].paths@[c as int]@),
                total == dag.nodes@[node as int].paths@[c as int]@.len(),
                total <= i32::MAX,
                k <= total,
                tables_right(x, tables@),
                tables0.len() == x.d.len(),
                forall|n: int| 0 <= n < tables0.len() && (#[trigger] tables0[n]).costs@.len() > 0 ==> tables@[n].costs@.len() > 0,
                row@.len() == layers,
                forall|l: int| 0 <= l < layers ==> #[trigger] row@[l] == choice(x, node as int, c as int, l, k as int),
            decreases total - k,
        {
            let path: usize = dag.nodes[node].paths[c][k];
            assert(x.d[node as int].paths[c as int][k as int] == path);
            assert(x.rank[path as int] >= 0);
            let ghost before = tables@;
            price_node(dag, costs, rules, tables, path, Ghost(x));
            assert forall|n: int| 0 <= n < tables0.len() && (#[trigger] tables0[n]).costs@.len() > 0 implies tables@[n].costs@.len() > 0 by {
                assert(before[n].costs@.len() > 0);
            }
            let direction: usize = if dag.nodes[node].p.x == dag.nodes[path].p.x { V } else { H };
            assert(x.d[path as int] == dnode(dag.nodes@[path as int]));
            assert(direction == direction_to(x.d, node as int, path as int));
            assert(costs.wires@[node as int]@.len() == x.d[node as int].paths.len());
            assert(costs.wires@[node as int]@[c as int]@.len() == x.d[node as int].paths[c as int].len());
            assert(costs.wires@[node as int]@[c as int]@[k as int]@.len() == layers);
            assert(covers(table(tables@[path as int]), layers as int));
            assert(tables@[path as int].costs@.len() == layers);
            assert(table(tables@[path as int]) == node_table(x, path as int));
            let mut l: usize = 0;
            while l < layers
                invariant
                    x.d == dnodes(dag.nodes@),
                    x.costs == *costs,
                    x.rules == *rules,
                    node < dag.nodes@.len(),
                    node < costs.wires@.len(),
                    c < costs.wires@[node as int]@.len(),
                    k < costs.wires@[node as int]@[c as int]@.len(),
                    costs.wires@[node as int]@[c as int]@[k as int]@.len() == layers,
                    layers == rules.layers == rules.directions@.len(),
                    layers <= i32::MAX,
                    k < total <= i32::MAX,
                    x.d[node as int].paths[c as int][k as int] == path,
                    0 <= x.rank[path as int] < x.rank[node as int],
                    direction == direction_to(x.d, node as int, path as int),
                    path < tables@.len(),
                    tables@[path as int].costs@.len() == layers,
                    table(tables@[path as int]) == node_table(x, path as int),
                    l <= layers,
                    row@.len() == layers,
                    forall|m: int| 0 <= m < layers ==> #[trigger] row@[m] == choice(x, node as int, c as int, m, if m < l { k + 1 } else { k as int }),
                decreases layers - l,
            {
                assert(row@[l as int] == choice(x, node as int, c as int, l as int, k as int));
                if l >= rules.min_routing_layer && rules.directions[l] == direction {
                    let cost = if rules.range.min_layer <= l as i32 && l as i32 <= rules.range.max_layer {
                        assert(tables@[path as int].costs@[l as int] == node_table(x, path as int).costs[l as int]);
                        tables[path].costs[l].plus(costs.wires[node][c][k][l])
                    } else {
                        costs.max
                    };
                    if cost.is_below(row[l].cost) {
                        row.set(l, Choice { cost, path: k as i32 });
                    }
                }
                assert(row@[l as int] == choice(x, node as int, c as int, l as int, k + 1));
                l += 1;
            }
            k += 1;
        }
        proof {
            assert(row@ =~= Seq::new(layers as nat, |l: int| choice(x, node as int, c as int, l, x.d[node as int].paths[c as int].len() as int)));
        }
        kids.push(row);
        c += 1;
    }
    assert(costs.vias@[node as int]@.len() + 1 >= layers);
    let t = settle_layers(&kids, &costs.vias[node], dag.nodes[node].fixed, rules.range, layers, costs.zero, costs.max);
    proof {
        let p = parts(kids@, costs.vias@[node as int]@, costs.zero, costs.max);
        let q = node_parts(x, node as int);
        assert(x.d[node as int].paths.len() == dag.nodes@[node as int].paths@.len());
        assert forall|j: int| 0 <= j < p.kids.len() implies #[trigger] p.kids[j] == q.kids[j] by {
            assert(kids@[j]@ == Seq::new(layers as nat, |l: int| choice(x, node as int, j, l, x.d[node as int].paths[j].len() as int)));
        }
        assert(p.kids =~= q.kids);
        assert(p =~= q);
        assert(table(t) == node_table(x, node as int));
    }
    tables.set(node, t);
}

/// The costs of every node of a graph on every layer, and there the best path to each child.
pub fn calculate_routing_costs<C: Cost>(dag: &Dag, costs: &RouteCosts<C>, rules: &LayerRules) -> (tables: Vec<NodeTable<C>>)
    requires
        is_dag(dnodes(dag.nodes@)),
        costs_cover(dnodes(dag.nodes@), *costs, *rules),
    ensures
        tables@.len() == dag.nodes@.len(),
        forall|n: int| 0 <= n < tables@.len() ==> table(#[trigger] tables@[n]) == node_table(priced(*dag, *costs, *rules), n) && covers(table(tables@[n]), rules.layers as int),
{
    let ghost x = priced(*dag, *costs, *rules);
    let mut tables: Vec<NodeTable<C>> = Vec::new();
    let mut n: usize = 0;
    while n < dag.nodes.len()
        invariant
            n <= dag.nodes@.len(),
            tables@.len() == n,
            forall|k: int| 0 <= k < n ==> (#[trigger] tables@[k]).costs@.len() == 0,
        decreases dag.nodes@.len() - n,
    {
        tables.push(NodeTable { costs: Vec::new(), best_paths: Vec::new() });
        n += 1;
    }
    let mut n: usize = 0;
    while n < dag.nodes.len()
        invariant
            x == priced(*dag, *costs, *rules),
            paths_ranked(x.d, x.rank),
            costs_cover(x.d, *costs, *rules),
            n <= dag.nodes@.len(),
            tables_right(x, tables@),
            forall|k: int| 0 <= k < n ==> (#[trigger] tables@[k]).costs@.len() > 0,
        decreases dag.nodes@.len() - n,
    {
        let ghost before = tables@;
        price_node(dag, costs, rules, &mut tables, n, Ghost(x));
        assert forall|k: int| 0 <= k < n + 1 implies (#[trigger] tables@[k]).costs@.len() > 0 by {
            if k < n {
                assert(before[k].costs@.len() > 0);
            }
        }
        n += 1;
    }
    tables
}

/// A graph with its costs and rules, ranked.
pub open spec fn priced<C>(dag: Dag, costs: RouteCosts<C>, rules: LayerRules) -> Priced<C> {
    Priced { d: dnodes(dag.nodes@), rank: choose|rank: Seq<int>| #[trigger] paths_ranked(dnodes(dag.nodes@), rank), costs, rules }
}

// ---- the routing tree ----

/// A node of a routing tree with its children as places.
#[verifier::ext_equal]
pub struct TNode {
    pub layer: i32,
    pub p: Point,
    pub children: Seq<int>,
}

pub open spec fn tnode(n: GrTreeNode) -> TNode {
    TNode { layer: n.layer, p: n.p, children: as_ints(n.children@) }
}

pub open spec fn tnodes(nodes: Seq<GrTreeNode>) -> Seq<TNode> {
    nodes.map_values(|n: GrTreeNode| tnode(n))
}

/// A graph, how its nodes rank, and on each layer the best path to each child.
pub struct Laid {
    pub d: Seq<DNode>,
    pub rank: Seq<int>,
    pub best: Seq<Seq<Seq<BestPath>>>,
    pub layers: int,
}

/// The best path to a child of a node on a layer.
pub open spec fn best_for(x: Laid, node: int, layer: int, c: int) -> BestPath {
    let b = x.best[node][layer];
    if c < b.len() { b[c] } else { no_path() }
}

/// Whether a node has a path to a child on a layer.
pub open spec fn has_path(x: Laid, node: int, layer: int, c: int) -> bool {
    let b = best_for(x, node, layer, c);
    0 <= b.path < x.d[node].paths[c].len() && 0 <= b.layer < x.layers
}

/// Whether a node has a path to each of its children on a layer.
pub open spec fn has_paths(x: Laid, node: int, layer: int) -> bool {
    forall|c: int| 0 <= c < x.d[node].paths.len() ==> #[trigger] has_path(x, node, layer, c)
}

/// Whether the best path to a child from the `c`-th on is on layer `l`.
pub open spec fn any_on(x: Laid, node: int, layer: int, l: int, c: int) -> bool
    decreases x.d[node].paths.len() - c,
{
    if c < 0 || c >= x.d[node].paths.len() { false } else { best_for(x, node, layer, c).layer == l || any_on(x, node, layer, l, c + 1) }
}

/// A tree with a child added to a node.
pub open spec fn with_child(t: Seq<TNode>, at: int, c: int) -> Seq<TNode> {
    t.update(at, TNode { children: t[at].children.push(c), ..t[at] })
}

/// A tree with a node without children added.
pub open spec fn with_leaf(t: Seq<TNode>, layer: i32, p: Point) -> Seq<TNode> {
    t.push(TNode { layer, p, children: Seq::empty() })
}

/// A tree with all below a node of the graph added, reached on a layer; none where a child has no path.
///
/// The children on the layer itself hang off the node, those on lower layers off a chain of vias down,
/// those on higher layers off one up, and the chains reach the layers that the node's pins need.
pub open spec fn laid_out(x: Laid, t: Seq<TNode>, node: int, layer: int) -> Option<Seq<TNode>>
    decreases x.rank[node], 3int, 0int,
{
    let me = t.len() as int;
    let p = x.d[node].p;
    if !has_paths(x, node, layer) {
        None
    } else {
        match hung(x, with_leaf(t, layer as i32, p), me, node, layer, layer, 0) {
            Some(a) => match chained_down(x, a, me, node, layer, layer - 1) {
                Some((b, lowest)) => match chained_up(x, b, me, node, layer, layer + 1) {
                    Some((c, highest)) => Some(pinned(c, lowest, highest, p, x.d[node].fixed)),
                    None => None,
                },
                None => None,
            },
            None => None,
        }
    }
}

/// A tree with the children of a node from the `c`-th on whose best path is on layer `l` hung off `at`.
pub open spec fn hung(x: Laid, t: Seq<TNode>, at: int, node: int, layer: int, l: int, c: int) -> Option<Seq<TNode>>
    decreases x.rank[node], 0int, x.d[node].paths.len() - c,
{
    if c < 0 || c >= x.d[node].paths.len() {
        Some(t)
    } else {
        let b = best_for(x, node, layer, c);
        let path = x.d[node].paths[c][b.path as int];
        if b.layer == l && 0 <= x.rank[path] < x.rank[node] {
            match laid_out(x, t, path, l) {
                Some(a) => hung(x, with_child(a, at, t.len() as int), at, node, layer, l, c + 1),
                None => None,
            }
        } else {
            hung(x, t, at, node, layer, l, c + 1)
        }
    }
}

/// A tree with the chain of vias down from `end`, layer `l` and those below: a link for every layer that
/// has children.
pub open spec fn chained_down(x: Laid, t: Seq<TNode>, end: int, node: int, layer: int, l: int) -> Option<(Seq<TNode>, int)>
    decreases x.rank[node], 1int, l + 1,
{
    if l < 0 {
        Some((t, end))
    } else if !any_on(x, node, layer, l, 0) {
        chained_down(x, t, end, node, layer, l - 1)
    } else {
        let chain = t.len() as int;
        match hung(x, with_child(with_leaf(t, l as i32, x.d[node].p), end, chain), chain, node, layer, l, 0) {
            Some(a) => chained_down(x, a, chain, node, layer, l - 1),
            None => None,
        }
    }
}

/// A tree with the chain of vias up from `end`, layer `l` and those above.
pub open spec fn chained_up(x: Laid, t: Seq<TNode>, end: int, node: int, layer: int, l: int) -> Option<(Seq<TNode>, int)>
    decreases x.rank[node], 2int, x.layers - l,
{
    if l >= x.layers {
        Some((t, end))
    } else if !any_on(x, node, layer, l, 0) {
        chained_up(x, t, end, node, layer, l + 1)
    } else {
        let chain = t.len() as int;
        match hung(x, with_child(with_leaf(t, l as i32, x.d[node].p), end, chain), chain, node, layer, l, 0) {
            Some(a) => chained_up(x, a, chain, node, layer, l + 1),
            None => None,
        }
    }
}

/// A tree with the chains of a node brought to the layers that its pins need.
pub open spec fn pinned(t: Seq<TNode>, lowest: int, highest: int, p: Point, fixed: Interval) -> Seq<TNode> {
    let a = if t[lowest].layer > fixed.low { with_child(with_leaf(t, fixed.low, p), lowest, t.len() as int) } else { t };
    if a[highest].layer < fixed.high { with_child(with_leaf(a, fixed.high, p), highest, a.len() as int) } else { a }
}

/// Whether every child stands after its parent.
pub open spec fn kids_after(t: Seq<TNode>) -> bool {
    forall|n: int, k: int| 0 <= n < t.len() && 0 <= k < t[n].children.len() ==> n < #[trigger] t[n].children[k] < t.len()
}

pub(crate) proof fn lemma_kids_after(nodes: Seq<GrTreeNode>)
    ensures
        kids_after(tnodes(nodes)) == is_ordered(nodes),
{
    if is_ordered(nodes) {
        assert forall|n: int, k: int| 0 <= n < nodes.len() && 0 <= k < tnodes(nodes)[n].children.len() implies n < #[trigger] tnodes(nodes)[n].children[k] < nodes.len() by {
            assert(nodes[n].children@[k] == tnodes(nodes)[n].children[k]);
        }
    }
    if kids_after(tnodes(nodes)) {
        assert forall|n: int, k: int| 0 <= n < nodes.len() && 0 <= k < nodes[n].children@.len() implies n < #[trigger] nodes[n].children@[k] < nodes.len() by {
            assert(nodes[n].children@[k] == tnodes(nodes)[n].children[k]);
        }
    }
}

pub(crate) fn add_leaf(tree: &mut GrTree, layer: i32, p: Point) -> (n: usize)
    requires
        kids_after(tnodes(old(tree).nodes@)),
    ensures
        n == old(tree).nodes@.len(),
        final(tree).nodes@.len() == n + 1,
        tnodes(final(tree).nodes@) == with_leaf(tnodes(old(tree).nodes@), layer, p),
        kids_after(tnodes(final(tree).nodes@)),
{
    let ghost t0 = tnodes(tree.nodes@);
    proof {
        lemma_kids_after(tree.nodes@);
    }
    let n: usize = tree.add(layer, p);
    proof {
        lemma_kids_after(tree.nodes@);
        let t = tnodes(tree.nodes@);
        let w = with_leaf(t0, layer, p);
        assert(t[n as int].children =~= Seq::<int>::empty());
        assert forall|k: int| 0 <= k < t.len() implies #[trigger] t[k] == w[k] by {}
        assert(t =~= w);
    }
    n
}

pub(crate) fn add_child(tree: &mut GrTree, at: usize, c: usize)
    requires
        at < c < old(tree).nodes@.len(),
        kids_after(tnodes(old(tree).nodes@)),
    ensures
        final(tree).nodes@.len() == old(tree).nodes@.len(),
        tnodes(final(tree).nodes@) == with_child(tnodes(old(tree).nodes@), at as int, c as int),
        kids_after(tnodes(final(tree).nodes@)),
{
    let ghost t0 = tnodes(tree.nodes@);
    tree.nodes[at].children.push(c);
    proof {
        let t = tnodes(tree.nodes@);
        assert(t[at as int].children =~= t0[at as int].children.push(c as int));
        assert(t =~= with_child(t0, at as int, c as int));
        assert forall|n: int, k: int| 0 <= n < t.len() && 0 <= k < t[n].children.len() implies n < #[trigger] t[n].children[k] < t.len() by {
            if n == at as int && k == t0[n].children.len() {
            } else {
                assert(t0[n].children[k] == t[n].children[k]);
            }
        }
    }
}

/// What laying out reads.
struct Plan<'a, C> {
    dag: &'a Dag,
    tables: &'a Vec<NodeTable<C>>,
    layers: usize,
}

impl<'a, C: Cost> Plan<'a, C> {
    spec fn ok(&self, x: Laid) -> bool {
        &&& x.d == dnodes(self.dag.nodes@)
        &&& paths_ranked(x.d, x.rank)
        &&& x.layers == self.layers <= i32::MAX
        &&& self.tables@.len() == x.d.len() == x.best.len()
        &&& forall|n: int| 0 <= n < x.d.len() ==> table(#[trigger] self.tables@[n]).best == x.best[n] && x.best[n].len() == self.layers
    }

    fn best(&self, node: usize, layer: usize, c: usize, Ghost(x): Ghost<Laid>) -> (b: BestPath)
        requires
            self.ok(x),
            node < x.d.len(),
            layer < self.layers,
        ensures
            b == best_for(x, node as int, layer as int, c as int),
    {
        assert(table(self.tables@[node as int]).best == x.best[node as int]);
        assert(x.best[node as int][layer as int] == self.tables@[node as int].best_paths@[layer as int]@);
        let v = &self.tables[node].best_paths[layer];
        if c < v.len() { v[c] } else { BestPath { path: -1, layer: -1 } }
    }

    fn paths_of(&self, node: usize, Ghost(x): Ghost<Laid>) -> (n: usize)
        requires
            self.ok(x),
            node < x.d.len(),
        ensures
            n == x.d[node as int].paths.len(),
    {
        assert(x.d[node as int] == dnode(self.dag.nodes@[node as int]));
        self.dag.nodes[node].paths.len()
    }

    fn check(&self, node: usize, layer: usize, Ghost(x): Ghost<Laid>) -> (r: bool)
        requires
            self.ok(x),
            node < x.d.len(),
            layer < self.layers,
        ensures
            r == has_paths(x, node as int, layer as int),
    {
        let n: usize = self.paths_of(node, Ghost(x));
        let mut c: usize = 0;
        while c < n
            invariant
                self.ok(x),
                node < x.d.len(),
                layer < self.layers,
                n == x.d[node as int].paths.len(),
                c <= n,
                forall|k: int| 0 <= k < c ==> #[trigger] has_path(x, node as int, layer as int, k),
            decreases n - c,
        {
            let b = self.best(node, layer, c, Ghost(x));
            assert(x.d[node as int] == dnode(self.dag.nodes@[node as int]));
            let total: usize = self.dag.nodes[node].paths[c].len();
            assert(x.d[node as int].paths[c as int].len() == total);
            if b.path < 0 || b.path as usize >= total || b.layer < 0 || b.layer as usize >= self.layers {
                assert(!has_path(x, node as int, layer as int, c as int));
                return false;
            }
            c += 1;
        }
        true
    }

    fn any(&self, node: usize, layer: usize, l: usize, Ghost(x): Ghost<Laid>) -> (r: bool)
        requires
            self.ok(x),
            node < x.d.len(),
            layer < self.layers,
        ensures
            r == any_on(x, node as int, layer as int, l as int, 0),
    {
        let n: usize = self.paths_of(node, Ghost(x));
        let mut c: usize = 0;
        while c < n
            invariant
                self.ok(x),
                node < x.d.len(),
                layer < self.layers,
                n == x.d[node as int].paths.len(),
                c <= n,
                any_on(x, node as int, layer as int, l as int, c as int) == any_on(x, node as int, layer as int, l as int, 0),
            decreases n - c,
        {
            let b = self.best(node, layer, c, Ghost(x));
            if b.layer >= 0 && b.layer as usize == l {
                return true;
            }
            c += 1;
        }
        false
    }

    fn lay(&self, tree: &mut GrTree, node: usize, layer: usize, Ghost(x): Ghost<Laid>) -> (done: bool)
        requires
            self.ok(x),
            node < x.d.len(),
            layer < self.layers,
            kids_after(tnodes(old(tree).nodes@)),
        ensures
            done == (laid_out(x, tnodes(old(tree).nodes@), node as int, layer as int) is Some),
            done ==> Some(tnodes(final(tree).nodes@)) == laid_out(x, tnodes(old(tree).nodes@), node as int, layer as int),
            done ==> kids_after(tnodes(final(tree).nodes@)),
            done ==> final(tree).nodes@.len() > old(tree).nodes@.len(),
        decreases x.rank[node as int], 3int, 0int,
    {
        if !self.check(node, layer, Ghost(x)) {
            return false;
        }
        let p = self.dag.nodes[node].p;
        let fixed = self.dag.nodes[node].fixed;
        assert(x.d[node as int] == dnode(self.dag.nodes@[node as int]));
        let me: usize = add_leaf(tree, layer as i32, p);
        if !self.hang(tree, me, node, layer, layer, Ghost(x)) {
            return false;
        }
        let mut lowest: usize = me;
        let mut l: usize = layer;
        let ghost a = tnodes(tree.nodes@);
        let ghost n0 = tree.nodes@.len();
        let ghost goal = chained_down(x, a, me as int, node as int, layer as int, layer - 1);
        while l > 0
            invariant
                self.ok(x),
                node < x.d.len(),
                p == x.d[node as int].p,
                has_paths(x, node as int, layer as int),
                l <= layer < self.layers,
                lowest < tree.nodes@.len(),
                n0 <= tree.nodes@.len(),
                kids_after(tnodes(tree.nodes@)),
                goal == chained_down(x, a, me as int, node as int, layer as int, layer - 1),
                hung(x, with_leaf(tnodes(old(tree).nodes@), layer as i32, p), me as int, node as int, layer as int, layer as int, 0) == Some(a),
                me == old(tree).nodes@.len(),
                chained_down(x, tnodes(tree.nodes@), lowest as int, node as int, layer as int, l - 1) == goal,
            decreases l,
        {
            l -= 1;
            if self.any(node, layer, l, Ghost(x)) {
                let chain: usize = add_leaf(tree, l as i32, p);
                add_child(tree, lowest, chain);
                lowest = chain;
                if !self.hang(tree, chain, node, layer, l, Ghost(x)) {
                    return false;
                }
            }
        }
        let mut highest: usize = me;
        let mut l: usize = layer + 1;
        let ghost b = tnodes(tree.nodes@);
        let ghost goal_up = chained_up(x, b, me as int, node as int, layer as int, layer + 1);
        assert(goal == Some((b, lowest as int)));
        while l < self.layers
            invariant
                self.ok(x),
                node < x.d.len(),
                p == x.d[node as int].p,
                has_paths(x, node as int, layer as int),
                layer < l <= self.layers,
                lowest < tree.nodes@.len(),
                highest < tree.nodes@.len(),
                n0 <= tree.nodes@.len(),
                kids_after(tnodes(tree.nodes@)),
                goal == chained_down(x, a, me as int, node as int, layer as int, layer - 1),
                hung(x, with_leaf(tnodes(old(tree).nodes@), layer as i32, p), me as int, node as int, layer as int, layer as int, 0) == Some(a),
                me == old(tree).nodes@.len(),
                goal == Some((b, lowest as int)),
                goal_up == chained_up(x, b, me as int, node as int, layer as int, layer + 1),
                chained_up(x, tnodes(tree.nodes@), highest as int, node as int, layer as int, l as int) == goal_up,
            decreases self.layers - l,
        {
            if self.any(node, layer, l, Ghost(x)) {
                let chain: usize = add_leaf(tree, l as i32, p);
                add_child(tree, highest, chain);
                highest = chain;
                if !self.hang(tree, chain, node, layer, l, Ghost(x)) {
                    return false;
                }
            }
            l += 1;
        }
        let ghost c = tnodes(tree.nodes@);
        assert(goal_up == Some((c, highest as int)));
        assert(c[lowest as int].layer == tree.nodes@[lowest as int].layer);
        if tree.nodes[lowest].layer > fixed.low {
            let leaf: usize = add_leaf(tree, fixed.low, p);
            add_child(tree, lowest, leaf);
        }
        let ghost e = tnodes(tree.nodes@);
        assert(e[highest as int].layer == tree.nodes@[highest as int].layer);
        if tree.nodes[highest].layer < fixed.high {
            let leaf: usize = add_leaf(tree, fixed.high, p);
            add_child(tree, highest, leaf);
        }
        assert(tnodes(tree.nodes@) == pinned(c, lowest as int, highest as int, p, fixed));
        true
    }

    fn hang(&self, tree: &mut GrTree, at: usize, node: usize, layer: usize, l: usize, Ghost(x): Ghost<Laid>) -> (done: bool)
        requires
            self.ok(x),
            node < x.d.len(),
            layer < self.layers,
            l < self.layers,
            has_paths(x, node as int, layer as int),
            at < old(tree).nodes@.len(),
            kids_after(tnodes(old(tree).nodes@)),
        ensures
            done == (hung(x, tnodes(old(tree).nodes@), at as int, node as int, layer as int, l as int, 0) is Some),
            done ==> Some(tnodes(final(tree).nodes@)) == hung(x, tnodes(old(tree).nodes@), at as int, node as int, layer as int, l as int, 0),
            done ==> kids_after(tnodes(final(tree).nodes@)),
            done ==> final(tree).nodes@.len() >= old(tree).nodes@.len(),
        decreases x.rank[node as int], 0int, 0int,
    {
        let n: usize = self.paths_of(node, Ghost(x));
        let ghost goal = hung(x, tnodes(tree.nodes@), at as int, node as int, layer as int, l as int, 0);
        let mut c: usize = 0;
        while c < n
            invariant
                self.ok(x),
                node < x.d.len(),
                layer < self.layers,
                l < self.layers,
                has_paths(x, node as int, layer as int),
                n == x.d[node as int].paths.len(),
                c <= n,
                at < old(tree).nodes@.len() <= tree.nodes@.len(),
                kids_after(tnodes(tree.nodes@)),
                goal == hung(x, tnodes(old(tree).nodes@), at as int, node as int, layer as int, l as int, 0),
                hung(x, tnodes(tree.nodes@), at as int, node as int, layer as int, l as int, c as int) == goal,
            decreases n - c,
        {
            let b = self.best(node, layer, c, Ghost(x));
            assert(has_path(x, node as int, layer as int, c as int));
            if b.layer as usize == l {
                assert(x.d[node as int] == dnode(self.dag.nodes@[node as int]));
                assert(x.d[node as int].paths[c as int] == as_ints(self.dag.nodes@[node as int].paths@[c as int]@));
                let path: usize = self.dag.nodes[node].paths[c][b.path as usize];
                assert(x.d[node as int].paths[c as int][b.path as int] == path);
                assert(x.rank[path as int] >= 0);
                let child: usize = tree.nodes.len();
                if !self.lay(tree, path, l, Ghost(x)) {
                    return false;
                }
                add_child(tree, at, child);
            }
            c += 1;
        }
        true
    }
}

/// The first layer of least cost among the first `n`, none where no cost is below the greatest.
pub open spec fn first_least<C: Cost>(costs: Seq<C>, max: C, n: int) -> Option<int>
    decreases n,
{
    if n <= 0 {
        None
    } else {
        let b = first_least(costs, max, n - 1);
        let c = match b {
            Some(l) => costs[l],
            None => max,
        };
        if costs[n - 1].below(c) { Some(n - 1) } else { b }
    }
}

/// A graph with the best paths of its tables, ranked.
pub open spec fn laid<C>(dag: Dag, tables: Seq<NodeTable<C>>, layers: int) -> Laid {
    Laid {
        d: dnodes(dag.nodes@),
        rank: choose|rank: Seq<int>| #[trigger] paths_ranked(dnodes(dag.nodes@), rank),
        best: tables.map_values(|t: NodeTable<C>| table(t).best),
        layers,
    }
}

/// The routing tree of a net whose graph is priced, none where a child has no path.
pub open spec fn routing_tree<C: Cost>(dag: Dag, tables: Seq<NodeTable<C>>, max: C, layers: int) -> Option<Seq<TNode>> {
    match first_least(tables[dag.root as int].costs@, max, layers) {
        Some(l) => laid_out(laid(dag, tables, layers), Seq::empty(), dag.root as int, l),
        None => None,
    }
}

/// The routing tree of the cheapest choice: from the root on its first cheapest layer. Refused where no
/// path has a finite cost.
pub fn get_routing_tree<C: Cost>(dag: &Dag, tables: &Vec<NodeTable<C>>, max: C, layers: usize, net_name: &str) -> (r: Result<GrTree, PatternError>)
    requires
        is_dag(dnodes(dag.nodes@)),
        dag.root < dag.nodes@.len(),
        layers <= i32::MAX,
        tables@.len() == dag.nodes@.len(),
        forall|n: int| 0 <= n < tables@.len() ==> covers(table(#[trigger] tables@[n]), layers as int),
    ensures
        match r {
            Ok(t) => {
                &&& Some(tnodes(t.nodes@)) == routing_tree(*dag, tables@, max, layers as int)
                &&& is_ordered(t.nodes@)
                &&& t.nodes@.len() > 0
            },
            Err(PatternError::NoFinitePath { net }) => routing_tree(*dag, tables@, max, layers as int) is None && net@ == net_name@,
            _ => false,
        },
{
    let ghost x = laid(*dag, tables@, layers as int);
    let ghost costs = tables@[dag.root as int].costs@;
    assert(covers(table(tables@[dag.root as int]), layers as int));
    let mut best: Option<usize> = None;
    let mut min = max;
    let mut l: usize = 0;
    while l < layers
        invariant
            dag.root < tables@.len(),
            costs == tables@[dag.root as int].costs@,
            costs.len() == layers,
            l <= layers,
            match best {
                Some(b) => first_least(costs, max, l as int) == Some(b as int) && b < l && min == costs[b as int],
                None => first_least(costs, max, l as int) is None && min == max,
            },
        decreases layers - l,
    {
        let c = tables[dag.root].costs[l];
        if c.is_below(min) {
            min = c;
            best = Some(l);
        }
        l += 1;
    }
    let root_layer: usize = match best {
        Some(l) => l,
        None => {
            return Err(PatternError::NoFinitePath { net: String::from_str(net_name) });
        },
    };
    let mut tree = GrTree::new();
    let plan = Plan { dag, tables, layers };
    proof {
        assert(tnodes(tree.nodes@) =~= Seq::empty());
        assert forall|n: int| 0 <= n < x.d.len() implies table(#[trigger] tables@[n]).best == x.best[n] && x.best[n].len() == layers by {
            assert(covers(table(tables@[n]), layers as int));
        }
    }
    if !plan.lay(&mut tree, dag.root, root_layer, Ghost(x)) {
        return Err(PatternError::NoFinitePath { net: String::from_str(net_name) });
    }
    proof {
        lemma_kids_after(tree.nodes@);
    }
    Ok(tree)
}

/// What laying out a net by patterns gives.
#[derive(Debug)]
pub struct PatternRoute<C> {
    pub tables: Vec<NodeTable<C>>,
    pub tree: GrTree,
}

/// Prices a graph and gives the routing tree of the cheapest choice.
pub fn run<C: Cost>(dag: &Dag, costs: &RouteCosts<C>, rules: &LayerRules, net_name: &str) -> (r: Result<PatternRoute<C>, PatternError>)
    requires
        is_dag(dnodes(dag.nodes@)),
        dag.root < dag.nodes@.len(),
        costs_cover(dnodes(dag.nodes@), *costs, *rules),
    ensures
        match r {
            Ok(route) => {
                &&& route.tables@.len() == dag.nodes@.len()
                &&& forall|n: int| 0 <= n < route.tables@.len() ==> table(#[trigger] route.tables@[n]) == node_table(priced(*dag, *costs, *rules), n)
                &&& Some(tnodes(route.tree.nodes@)) == routing_tree(*dag, route.tables@, costs.max, rules.layers as int)
                &&& is_ordered(route.tree.nodes@)
            },
            Err(PatternError::NoFinitePath { net }) => net@ == net_name@ && exists|tables: Seq<NodeTable<C>>| #[trigger] are_tables(priced(*dag, *costs, *rules), tables) && routing_tree(
                *dag,
                tables,
                costs.max,
                rules.layers as int,
            ) is None,
            _ => false,
        },
{
    let tables = calculate_routing_costs(dag, costs, rules);
    match get_routing_tree(dag, &tables, costs.max, rules.layers, net_name) {
        Ok(tree) => Ok(PatternRoute { tables, tree }),
        Err(e) => {
            assert(are_tables(priced(*dag, *costs, *rules), tables@));
            Err(e)
        },
    }
}

/// Whether tables are those of every node of a priced graph.
pub open spec fn are_tables<C: Cost>(x: Priced<C>, tables: Seq<NodeTable<C>>) -> bool {
    tables.len() == x.d.len() && forall|n: int| 0 <= n < tables.len() ==> table(#[trigger] tables[n]) == node_table(x, n)
}

// ---- what a routing tree joins ----

/// Whether two nodes of a tree are joined by vias at one place or by a wire on one layer that moves one
/// way.
pub open spec fn is_wire_or_vias(a: TNode, b: TNode) -> bool {
    a.p == b.p || (a.layer == b.layer && (a.p.x == b.p.x || a.p.y == b.p.y))
}

/// Whether every link of a tree is a wire or vias.
pub open spec fn joins_by_wires(r: Seq<TNode>) -> bool {
    forall|n: int, k: int|
        0 <= n < r.len() && 0 <= k < r[n].children.len() ==> 0 <= (#[trigger] r[n].children[k]) < r.len() && is_wire_or_vias(r[n], r[r[n].children[k]])
}

/// Whether a node of a tree is the child of one before it.
pub open spec fn has_parent(r: Seq<TNode>, i: int) -> bool {
    exists|n: int| 0 <= n < i && (#[trigger] r[n]).children.contains(i)
}

/// Whether a tree has a node at a place on one of some layers.
pub open spec fn stands_on(r: Seq<TNode>, p: Point, low: int, high: int) -> bool {
    exists|i: int| 0 <= i < r.len() && (#[trigger] r[i]).p == p && low <= r[i].layer <= high
}

/// Whether every leg of a path is straight.
pub open spec fn legs_are_straight(d: Seq<DNode>) -> bool {
    forall|n: int, c: int, k: int|
        0 <= n < d.len() && 0 <= c < d[n].paths.len() && 0 <= k < d[n].paths[c].len() ==> {
            let e = d[#[trigger] d[n].paths[c][k]].p;
            e.x == d[n].p.x || e.y == d[n].p.y
        }
}

/// Whether a tree holds a node of the graph on a layer and all below it: it stands there, at or below the
/// lowest layer that the node's pins need and at or above the highest, and it holds for every child the
/// node of the best path to it on that path's layer.
pub open spec fn holds_all_below(x: Laid, r: Seq<TNode>, node: int, layer: int) -> bool
    decreases x.rank[node],
{
    let p = x.d[node].p;
    let fixed = x.d[node].fixed;
    &&& stands_on(r, p, layer, layer)
    &&& stands_on(r, p, i32::MIN as int, fixed.low as int)
    &&& stands_on(r, p, fixed.high as int, i32::MAX as int)
    &&& forall|c: int|
        0 <= c < x.d[node].paths.len() ==> {
            let b = #[trigger] best_for(x, node, layer, c);
            let path = x.d[node].paths[c][b.path as int];
            0 <= x.rank[path] < x.rank[node] && holds_all_below(x, r, path, b.layer as int)
        }
}

spec fn keeps(a: TNode, b: TNode) -> bool {
    a.p == b.p && a.layer == b.layer && a.children.is_prefix_of(b.children)
}

spec fn grows(t: Seq<TNode>, r: Seq<TNode>) -> bool {
    t.len() <= r.len() && forall|i: int| 0 <= i < t.len() ==> keeps(t[i], #[trigger] r[i])
}

proof fn lemma_grows_on(t: Seq<TNode>, r: Seq<TNode>, s: Seq<TNode>)
    requires
        grows(t, r),
        grows(r, s),
    ensures
        grows(t, s),
{
    assert forall|i: int| 0 <= i < t.len() implies keeps(t[i], #[trigger] s[i]) by {
        assert(keeps(t[i], r[i]) && keeps(r[i], s[i]));
    }
}

proof fn lemma_parent_stays(t: Seq<TNode>, r: Seq<TNode>, i: int)
    requires
        grows(t, r),
        i < t.len(),
        has_parent(t, i),
    ensures
        has_parent(r, i),
{
    let n = choose|n: int| 0 <= n < i && (#[trigger] t[n]).children.contains(i);
    assert(keeps(t[n], r[n]));
    let k = choose|k: int| 0 <= k < t[n].children.len() && t[n].children[k] == i;
    assert(r[n].children[k] == i);
}

proof fn lemma_stands_stays(t: Seq<TNode>, r: Seq<TNode>, p: Point, low: int, high: int)
    requires
        grows(t, r),
        stands_on(t, p, low, high),
    ensures
        stands_on(r, p, low, high),
{
    let i = choose|i: int| 0 <= i < t.len() && (#[trigger] t[i]).p == p && low <= t[i].layer <= high;
    assert(keeps(t[i], r[i]));
}

proof fn lemma_holds_stays(x: Laid, t: Seq<TNode>, r: Seq<TNode>, node: int, layer: int)
    requires
        grows(t, r),
        holds_all_below(x, t, node, layer),
    ensures
        holds_all_below(x, r, node, layer),
    decreases x.rank[node],
{
    let p = x.d[node].p;
    lemma_stands_stays(t, r, p, layer, layer);
    lemma_stands_stays(t, r, p, i32::MIN as int, x.d[node].fixed.low as int);
    lemma_stands_stays(t, r, p, x.d[node].fixed.high as int, i32::MAX as int);
    assert forall|c: int| 0 <= c < x.d[node].paths.len() implies ({
        let b = #[trigger] best_for(x, node, layer, c);
        let path = x.d[node].paths[c][b.path as int];
        0 <= x.rank[path] < x.rank[node] && holds_all_below(x, r, path, b.layer as int)
    }) by {
        let b = best_for(x, node, layer, c);
        lemma_holds_stays(x, t, r, x.d[node].paths[c][b.path as int], b.layer as int);
    }
}

proof fn lemma_leaf(t: Seq<TNode>, layer: i32, p: Point)
    requires
        joins_by_wires(t),
    ensures
        joins_by_wires(with_leaf(t, layer, p)),
        grows(t, with_leaf(t, layer, p)),
{
    let r = with_leaf(t, layer, p);
    assert forall|i: int| 0 <= i < t.len() implies keeps(t[i], #[trigger] r[i]) by {}
    assert forall|n: int, k: int| 0 <= n < r.len() && 0 <= k < r[n].children.len() implies 0 <= (#[trigger] r[n].children[k]) < r.len() && is_wire_or_vias(
        r[n],
        r[r[n].children[k]],
    ) by {
        assert(r[n] == t[n]);
        assert(0 <= t[n].children[k] < t.len());
    }
}

proof fn lemma_child(t: Seq<TNode>, at: int, c: int)
    requires
        joins_by_wires(t),
        0 <= at < c < t.len(),
        is_wire_or_vias(t[at], t[c]),
    ensures
        joins_by_wires(with_child(t, at, c)),
        grows(t, with_child(t, at, c)),
        has_parent(with_child(t, at, c), c),
{
    let r = with_child(t, at, c);
    assert forall|i: int| 0 <= i < t.len() implies keeps(t[i], #[trigger] r[i]) by {}
    assert forall|n: int, k: int| 0 <= n < r.len() && 0 <= k < r[n].children.len() implies 0 <= (#[trigger] r[n].children[k]) < r.len() && is_wire_or_vias(
        r[n],
        r[r[n].children[k]],
    ) by {
        if n != at || k < t[n].children.len() {
            assert(r[n].children[k] == t[n].children[k]);
            let m = t[n].children[k];
            assert(0 <= m < t.len());
            assert(keeps(t[n], r[n]) && keeps(t[m], r[m]));
        }
    }
    assert(r[at].children[t[at].children.len() as int] == c);
}

spec fn laid_fits(x: Laid) -> bool {
    &&& paths_ranked(x.d, x.rank)
    &&& legs_are_straight(x.d)
    &&& 0 <= x.layers <= i32::MAX
}

proof fn lemma_any_on(x: Laid, node: int, layer: int, l: int, c: int, k: int)
    requires
        0 <= c <= k < x.d[node].paths.len(),
        best_for(x, node, layer, k).layer == l,
    ensures
        any_on(x, node, layer, l, c),
    decreases k - c,
{
    if c < k {
        lemma_any_on(x, node, layer, l, c + 1, k);
    }
}

spec fn way_held(x: Laid, r: Seq<TNode>, node: int, layer: int, c: int) -> bool {
    let b = best_for(x, node, layer, c);
    let path = x.d[node].paths[c][b.path as int];
    0 <= x.rank[path] < x.rank[node] && holds_all_below(x, r, path, b.layer as int)
}

proof fn lemma_laid_joins(x: Laid, t: Seq<TNode>, node: int, layer: int)
    requires
        laid_fits(x),
        joins_by_wires(t),
        0 <= node < x.d.len(),
        0 <= layer < x.layers,
    ensures
        laid_out(x, t, node, layer) matches Some(r) ==> {
            &&& grows(t, r)
            &&& joins_by_wires(r)
            &&& t.len() < r.len()
            &&& r[t.len() as int].p == x.d[node].p
            &&& r[t.len() as int].layer == layer
            &&& forall|i: int| t.len() < i < r.len() ==> #[trigger] has_parent(r, i)
            &&& holds_all_below(x, r, node, layer)
        },
    decreases x.rank[node], 3int, 0int,
{
    let me = t.len() as int;
    let p = x.d[node].p;
    if let Some(r) = laid_out(x, t, node, layer) {
        let t0 = with_leaf(t, layer as i32, p);
        lemma_leaf(t, layer as i32, p);
        lemma_hung_joins(x, t0, me, node, layer, layer, 0);
        let a = hung(x, t0, me, node, layer, layer, 0)->0;
        assert(keeps(t0[me], a[me]));
        lemma_down_joins(x, a, me, node, layer, layer - 1);
        let (b, lowest) = chained_down(x, a, me, node, layer, layer - 1)->0;
        assert(keeps(a[me], b[me]));
        lemma_up_joins(x, b, me, node, layer, layer + 1);
        let (c, highest) = chained_up(x, b, me, node, layer, layer + 1)->0;
        assert(keeps(b[me], c[me]));
        assert(keeps(b[lowest], c[lowest]));
        let fixed = x.d[node].fixed;
        let n = c.len() as int;
        let e = if c[lowest].layer > fixed.low { with_child(with_leaf(c, fixed.low, p), lowest, n) } else { c };
        if c[lowest].layer > fixed.low {
            lemma_leaf(c, fixed.low, p);
            lemma_child(with_leaf(c, fixed.low, p), lowest, n);
            lemma_grows_on(c, with_leaf(c, fixed.low, p), e);
            assert(e[n].p == p && e[n].layer == fixed.low);
            assert(stands_on(e, p, i32::MIN as int, fixed.low as int));
        } else {
            assert(keeps(c[lowest], c[lowest])) by {
                assert(c[lowest].children.is_prefix_of(c[lowest].children));
            }
            assert forall|i: int| 0 <= i < c.len() implies keeps(c[i], #[trigger] e[i]) by {
                assert(c[i].children.is_prefix_of(c[i].children));
            }
            assert(e[lowest].p == p);
            assert(stands_on(e, p, i32::MIN as int, fixed.low as int));
        }
        assert(grows(c, e));
        let m = e.len() as int;
        assert(keeps(c[highest], e[highest]));
        if e[highest].layer < fixed.high {
            lemma_leaf(e, fixed.high, p);
            lemma_child(with_leaf(e, fixed.high, p), highest, m);
            lemma_grows_on(e, with_leaf(e, fixed.high, p), r);
            assert(r[m].p == p && r[m].layer == fixed.high);
            assert(stands_on(r, p, fixed.high as int, i32::MAX as int));
        } else {
            assert forall|i: int| 0 <= i < e.len() implies keeps(e[i], #[trigger] r[i]) by {
                assert(e[i].children.is_prefix_of(e[i].children));
            }
            assert(r[highest].p == p);
            assert(stands_on(r, p, fixed.high as int, i32::MAX as int));
        }
        assert(grows(e, r));
        lemma_stands_stays(e, r, p, i32::MIN as int, fixed.low as int);
        lemma_grows_on(c, e, r);
        lemma_grows_on(b, c, r);
        lemma_grows_on(a, b, r);
        lemma_grows_on(t0, a, r);
        lemma_grows_on(t, t0, r);
        assert(keeps(t0[me], r[me]));
        assert(stands_on(r, p, layer, layer));
        assert forall|i: int| me < i < r.len() implies #[trigger] has_parent(r, i) by {
            if i < a.len() {
                lemma_parent_stays(a, r, i);
            } else if i < b.len() {
                lemma_parent_stays(b, r, i);
            } else if i < c.len() {
                lemma_parent_stays(c, r, i);
            } else if i < e.len() {
                lemma_parent_stays(e, r, i);
            }
        }
        assert forall|k: int| 0 <= k < x.d[node].paths.len() implies ({
            let b = #[trigger] best_for(x, node, layer, k);
            let path = x.d[node].paths[k][b.path as int];
            0 <= x.rank[path] < x.rank[node] && holds_all_below(x, r, path, b.layer as int)
        }) by {
            assert(has_path(x, node, layer, k));
            let bf = best_for(x, node, layer, k);
            let path = x.d[node].paths[k][bf.path as int];
            if bf.layer == layer {
                assert(way_held(x, a, node, layer, k));
                lemma_holds_stays(x, a, r, path, bf.layer as int);
            } else if bf.layer < layer {
                assert(way_held(x, b, node, layer, k));
                lemma_holds_stays(x, b, r, path, bf.layer as int);
            } else {
                assert(way_held(x, c, node, layer, k));
                lemma_holds_stays(x, c, r, path, bf.layer as int);
            }
        }
    }
}

proof fn lemma_hung_joins(x: Laid, t: Seq<TNode>, at: int, node: int, layer: int, l: int, c: int)
    requires
        laid_fits(x),
        joins_by_wires(t),
        0 <= node < x.d.len(),
        0 <= l < x.layers,
        0 <= c,
        has_paths(x, node, layer),
        0 <= at < t.len(),
        t[at].p == x.d[node].p,
        t[at].layer == l,
    ensures
        hung(x, t, at, node, layer, l, c) matches Some(r) ==> {
            &&& grows(t, r)
            &&& joins_by_wires(r)
            &&& forall|i: int| t.len() <= i < r.len() ==> #[trigger] has_parent(r, i)
            &&& forall|k: int| c <= k < x.d[node].paths.len() && best_for(x, node, layer, k).layer == l ==> #[trigger] way_held(x, r, node, layer, k)
        },
    decreases x.rank[node], 0int, x.d[node].paths.len() - c,
{
    if c >= x.d[node].paths.len() {
        assert forall|i: int| 0 <= i < t.len() implies keeps(t[i], #[trigger] t[i]) by {
            assert(t[i].children.is_prefix_of(t[i].children));
        }
    } else if let Some(r) = hung(x, t, at, node, layer, l, c) {
        let b = best_for(x, node, layer, c);
        assert(has_path(x, node, layer, c));
        let path = x.d[node].paths[c][b.path as int];
        assert(0 <= path < x.d.len() && x.rank[path] < x.rank[node]);
        assert(x.rank[path] >= 0);
        if b.layer == l {
            lemma_laid_joins(x, t, path, l);
            let a = laid_out(x, t, path, l)->0;
            let n = t.len() as int;
            assert(keeps(t[at], a[at]));
            assert(x.d[path].p.x == x.d[node].p.x || x.d[path].p.y == x.d[node].p.y);
            lemma_child(a, at, n);
            let w = with_child(a, at, n);
            lemma_grows_on(t, a, w);
            assert(keeps(t[at], w[at]));
            lemma_hung_joins(x, w, at, node, layer, l, c + 1);
            lemma_grows_on(t, w, r);
            lemma_grows_on(a, w, r);
            assert forall|i: int| t.len() <= i < r.len() implies #[trigger] has_parent(r, i) by {
                if i == n {
                    lemma_parent_stays(w, r, i);
                } else if i < a.len() {
                    lemma_parent_stays(a, r, i);
                }
            }
            lemma_holds_stays(x, a, r, path, l);
            assert(way_held(x, r, node, layer, c));
        } else {
            lemma_hung_joins(x, t, at, node, layer, l, c + 1);
        }
    }
}

proof fn lemma_down_joins(x: Laid, t: Seq<TNode>, end: int, node: int, layer: int, l: int)
    requires
        laid_fits(x),
        joins_by_wires(t),
        0 <= node < x.d.len(),
        l < x.layers,
        has_paths(x, node, layer),
        0 <= end < t.len(),
        t[end].p == x.d[node].p,
    ensures
        chained_down(x, t, end, node, layer, l) matches Some((r, low)) ==> {
            &&& grows(t, r)
            &&& joins_by_wires(r)
            &&& 0 <= low < r.len()
            &&& r[low].p == x.d[node].p
            &&& forall|i: int| t.len() <= i < r.len() ==> #[trigger] has_parent(r, i)
            &&& forall|k: int|
                0 <= k < x.d[node].paths.len() && 0 <= best_for(x, node, layer, k).layer <= l ==> #[trigger] way_held(x, r, node, layer, k)
        },
    decreases x.rank[node], 1int, l + 1,
{
    if l < 0 {
        assert forall|i: int| 0 <= i < t.len() implies keeps(t[i], #[trigger] t[i]) by {
            assert(t[i].children.is_prefix_of(t[i].children));
        }
    } else if let Some((r, low)) = chained_down(x, t, end, node, layer, l) {
        if !any_on(x, node, layer, l, 0) {
            lemma_down_joins(x, t, end, node, layer, l - 1);
            assert forall|k: int| 0 <= k < x.d[node].paths.len() && 0 <= best_for(x, node, layer, k).layer <= l implies #[trigger] way_held(x, r, node, layer, k) by {
                if best_for(x, node, layer, k).layer == l {
                    lemma_any_on(x, node, layer, l, 0, k);
                }
            }
        } else {
            let chain = t.len() as int;
            let t0 = with_leaf(t, l as i32, x.d[node].p);
            lemma_leaf(t, l as i32, x.d[node].p);
            assert(keeps(t[end], t0[end]));
            lemma_child(t0, end, chain);
            let t1 = with_child(t0, end, chain);
            lemma_grows_on(t, t0, t1);
            assert(keeps(t0[chain], t1[chain]));
            lemma_hung_joins(x, t1, chain, node, layer, l, 0);
            let a = hung(x, t1, chain, node, layer, l, 0)->0;
            assert(keeps(t1[chain], a[chain]));
            lemma_down_joins(x, a, chain, node, layer, l - 1);
            lemma_grows_on(t, t1, a);
            lemma_grows_on(t, a, r);
            lemma_grows_on(t1, a, r);
            assert forall|i: int| t.len() <= i < r.len() implies #[trigger] has_parent(r, i) by {
                if i == chain {
                    lemma_parent_stays(t1, r, i);
                } else if i < a.len() {
                    lemma_parent_stays(a, r, i);
                }
            }
            assert forall|k: int| 0 <= k < x.d[node].paths.len() && 0 <= best_for(x, node, layer, k).layer <= l implies #[trigger] way_held(x, r, node, layer, k) by {
                if best_for(x, node, layer, k).layer == l {
                    assert(way_held(x, a, node, layer, k));
                    let b = best_for(x, node, layer, k);
                    lemma_holds_stays(x, a, r, x.d[node].paths[k][b.path as int], b.layer as int);
                }
            }
        }
    }
}

proof fn lemma_up_joins(x: Laid, t: Seq<TNode>, end: int, node: int, layer: int, l: int)
    requires
        laid_fits(x),
        joins_by_wires(t),
        0 <= node < x.d.len(),
        0 <= l,
        has_paths(x, node, layer),
        0 <= end < t.len(),
        t[end].p == x.d[node].p,
    ensures
        chained_up(x, t, end, node, layer, l) matches Some((r, high)) ==> {
            &&& grows(t, r)
            &&& joins_by_wires(r)
            &&& 0 <= high < r.len()
            &&& r[high].p == x.d[node].p
            &&& forall|i: int| t.len() <= i < r.len() ==> #[trigger] has_parent(r, i)
            &&& forall|k: int|
                0 <= k < x.d[node].paths.len() && l <= best_for(x, node, layer, k).layer < x.layers ==> #[trigger] way_held(x, r, node, layer, k)
        },
    decreases x.rank[node], 2int, x.layers - l,
{
    if l >= x.layers {
        assert forall|i: int| 0 <= i < t.len() implies keeps(t[i], #[trigger] t[i]) by {
            assert(t[i].children.is_prefix_of(t[i].children));
        }
    } else if let Some((r, high)) = chained_up(x, t, end, node, layer, l) {
        if !any_on(x, node, layer, l, 0) {
            lemma_up_joins(x, t, end, node, layer, l + 1);
            assert forall|k: int| 0 <= k < x.d[node].paths.len() && l <= best_for(x, node, layer, k).layer < x.layers implies #[trigger] way_held(
                x,
                r,
                node,
                layer,
                k,
            ) by {
                if best_for(x, node, layer, k).layer == l {
                    lemma_any_on(x, node, layer, l, 0, k);
                }
            }
        } else {
            let chain = t.len() as int;
            let t0 = with_leaf(t, l as i32, x.d[node].p);
            lemma_leaf(t, l as i32, x.d[node].p);
            assert(keeps(t[end], t0[end]));
            lemma_child(t0, end, chain);
            let t1 = with_child(t0, end, chain);
            lemma_grows_on(t, t0, t1);
            assert(keeps(t0[chain], t1[chain]));
            lemma_hung_joins(x, t1, chain, node, layer, l, 0);
            let a = hung(x, t1, chain, node, layer, l, 0)->0;
            assert(keeps(t1[chain], a[chain]));
            lemma_up_joins(x, a, chain, node, layer, l + 1);
            lemma_grows_on(t, t1, a);
            lemma_grows_on(t, a, r);
            lemma_grows_on(t1, a, r);
            assert forall|i: int| t.len() <= i < r.len() implies #[trigger] has_parent(r, i) by {
                if i == chain {
                    lemma_parent_stays(t1, r, i);
                } else if i < a.len() {
                    lemma_parent_stays(a, r, i);
                }
            }
            assert forall|k: int| 0 <= k < x.d[node].paths.len() && l <= best_for(x, node, layer, k).layer < x.layers implies #[trigger] way_held(
                x,
                r,
                node,
                layer,
                k,
            ) by {
                if best_for(x, node, layer, k).layer == l {
                    assert(way_held(x, a, node, layer, k));
                    let b = best_for(x, node, layer, k);
                    lemma_holds_stays(x, a, r, x.d[node].paths[k][b.path as int], b.layer as int);
                }
            }
        }
    }
}

/// A routing tree hangs together and joins everything: every node but the first is the child of one
/// before it, every link is a wire on one layer that moves one way or vias at one place, and the tree
/// stands, for the root and for the best path to every child below, on the layers that the pins there
/// need and on that path's layer.
pub proof fn a_routing_tree_joins_every_pin(x: Laid, root: int, layer: int)
    requires
        paths_ranked(x.d, x.rank),
        legs_are_straight(x.d),
        0 <= x.layers <= i32::MAX,
        0 <= root < x.d.len(),
        0 <= layer < x.layers,
        laid_out(x, Seq::empty(), root, layer) is Some,
    ensures
        ({
            let r = laid_out(x, Seq::empty(), root, layer)->0;
            &&& r.len() > 0
            &&& r[0].p == x.d[root].p
            &&& r[0].layer == layer
            &&& forall|i: int| 0 < i < r.len() ==> #[trigger] has_parent(r, i)
            &&& joins_by_wires(r)
            &&& holds_all_below(x, r, root, layer)
        }),
{
    lemma_laid_joins(x, Seq::empty(), root, layer);
}

/// The root is laid on the first of its layers that no other undercuts, as long as its cost is below the
/// greatest.
pub proof fn the_root_takes_its_cheapest_layer<C: Cost>(costs: Seq<C>, max: C, n: int)
    requires
        costs_add_up::<C>(),
        0 <= n <= costs.len(),
    ensures
        match first_least(costs, max, n) {
            Some(l) => {
                &&& 0 <= l < n
                &&& costs[l].below(max)
                &&& forall|k: int| 0 <= k < n ==> at_most(costs[l], #[trigger] costs[k])
                &&& forall|k: int| 0 <= k < l ==> costs[l].below(#[trigger] costs[k])
            },
            None => forall|k: int| 0 <= k < n ==> !(#[trigger] costs[k]).below(max),
        },
    decreases n,
{
    if n > 0 {
        the_root_takes_its_cheapest_layer(costs, max, n - 1);
        let c = costs[n - 1];
        match first_least(costs, max, n - 1) {
            Some(l) => {
                if c.below(costs[l]) {
                    assert(at_most(c, costs[l]));
                    assert(at_most(costs[l], max));
                    if !c.below(max) {
                        assert(at_most(max, c));
                        assert(at_most(max, costs[l]));
                    }
                    assert forall|k: int| 0 <= k < n - 1 implies c.below(#[trigger] costs[k]) by {
                        if !c.below(costs[k]) {
                            assert(at_most(costs[k], c));
                            assert(at_most(costs[l], costs[k]));
                            assert(at_most(costs[l], c));
                        }
                    }
                    assert forall|k: int| 0 <= k < n implies at_most(c, #[trigger] costs[k]) by {
                        if k < n - 1 {
                            assert(c.below(costs[k]));
                        }
                    }
                } else {
                    assert(at_most(costs[l], c));
                }
            },
            None => {
                if c.below(max) {
                    assert forall|k: int| 0 <= k < n - 1 implies c.below(#[trigger] costs[k]) by {
                        if !c.below(costs[k]) {
                            assert(at_most(costs[k], c));
                            assert(at_most(c, max));
                            assert(at_most(max, costs[k]));
                            assert(at_most(max, c));
                        }
                    }
                    assert forall|k: int| 0 <= k < n implies at_most(c, #[trigger] costs[k]) by {
                        if k < n - 1 {
                            assert(c.below(costs[k]));
                        }
                    }
                }
            },
        }
    }
}

/// The paths from a node to another are all the ways with one bend or none: straight where both are
/// aligned, else by either corner of their box, and every leg of a path is straight.
pub proof fn a_node_is_reached_straight_or_by_either_corner(d: Seq<DNode>, start: int, end: int)
    requires
        0 <= start < d.len(),
        0 <= end < d.len(),
        start != end,
    ensures
        ({
            let r = with_paths(d, start, end);
            let (s, e) = (d[start].p, d[end].p);
            let ways = r[start].paths.last();
            &&& r[start].paths.len() == d[start].paths.len() + 1
            &&& r[start].p == s
            &&& r[end] == d[end]
            &&& s.x == e.x || s.y == e.y ==> ways == seq![end] && r.len() == d.len()
            &&& s.x != e.x && s.y != e.y ==> {
                &&& ways.len() == 2
                &&& r.len() == d.len() + 2
                &&& forall|k: int|
                    0 <= k < 2 ==> {
                        let b = r[#[trigger] ways[k]];
                        &&& d.len() <= ways[k] < r.len()
                        &&& b.paths == seq![seq![end]]
                        &&& b.p.x == s.x && b.p.y == e.y || b.p.y == s.y && b.p.x == e.x
                        &&& !b.fixed.valid()
                    }
                &&& r[ways[0]].p != r[ways[1]].p
            }
        }),
{
    let r = with_paths(d, start, end);
    let ways = r[start].paths.last();
    if d[start].p.x != d[end].p.x && d[start].p.y != d[end].p.y {
        let n = d.len() as int;
        assert(ways =~= seq![n, n + 1]);
        assert(r[n].paths =~= seq![seq![end]]);
        assert(r[n + 1].paths =~= seq![seq![end]]);
    }
}

} // verus!
