//! What the nets' trees take of the plane, and how that moves: with trees that are saved and put back,
//! and with nets whose rule is given up.

use crate::lists::{all_of, lemma_all_next, lemma_all_none};
use vstd::prelude::*;
use vstd::string::StringExecFns;

use crate::brk_rsmt::{RouteKind, StTree, TreeRoute};
use crate::congestion_loop::{demotion_order, has_tie, route_edges, route_edges_upto, step_edge, tie_words, turned, PlaneEdge};
use crate::sorting::is_order;
use crate::text::{dec_nat, push_nat};
use crate::vecs::{copy_rows, copy_vec};

verus! {

// ---- copies of trees ----

/// Whether a route is a copy of another, of a kind.
pub open spec fn is_route_copy(a: TreeRoute, b: TreeRoute, kind: RouteKind) -> bool {
    &&& b.kind == kind
    &&& b.x_first == a.x_first
    &&& b.hvh == a.hvh
    &&& b.z_point == a.z_point
    &&& b.grids@ == a.grids@
    &&& b.routelen == a.routelen
    &&& b.last_routelen == a.last_routelen
    &&& b.layers@ == a.layers@
}

/// Whether a tree is a copy of another. Its routes keep their kinds, or are all maze routes.
pub open spec fn is_tree_copy(a: StTree, b: StTree, as_maze: bool) -> bool {
    &&& b.num_terminals == a.num_terminals
    &&& b.nodes@ == a.nodes@
    &&& b.nbr@.len() == a.nbr@.len()
    &&& b.edge@.len() == a.edge@.len()
    &&& forall|i: int| 0 <= i < a.nbr@.len() ==> (#[trigger] b.nbr@[i])@ == a.nbr@[i]@
    &&& forall|i: int| 0 <= i < a.edge@.len() ==> (#[trigger] b.edge@[i])@ == a.edge@[i]@
    &&& b.edges@ == a.edges@
    &&& b.node_to_pin_idx@ == a.node_to_pin_idx@
    &&& b.routes@.len() == a.routes@.len()
    &&& forall|i: int| 0 <= i < a.routes@.len() ==> is_route_copy(a.routes@[i], #[trigger] b.routes@[i], if as_maze { RouteKind::MazeRoute } else { a.routes@[i].kind })
}

fn copy_tree(t: &StTree, as_maze: bool) -> (r: StTree)
    ensures
        is_tree_copy(*t, r, as_maze),
{
    let mut routes: Vec<TreeRoute> = Vec::new();
    let mut i: usize = 0;
    while i < t.routes.len()
        invariant
            i <= t.routes@.len(),
            routes@.len() == i,
            forall|j: int| 0 <= j < i ==> is_route_copy(t.routes@[j], #[trigger] routes@[j], if as_maze { RouteKind::MazeRoute } else { t.routes@[j].kind }),
        decreases t.routes@.len() - i,
    {
        let a = &t.routes[i];
        routes.push(
            TreeRoute {
                kind: if as_maze { RouteKind::MazeRoute } else { a.kind },
                x_first: a.x_first,
                hvh: a.hvh,
                z_point: a.z_point,
                grids: copy_vec(&a.grids),
                routelen: a.routelen,
                last_routelen: a.last_routelen,
                layers: copy_vec(&a.layers),
            },
        );
        i += 1;
    }
    StTree {
        num_terminals: t.num_terminals,
        nodes: copy_vec(&t.nodes),
        nbr: copy_rows(&t.nbr),
        edge: copy_rows(&t.edge),
        edges: copy_vec(&t.edges),
        node_to_pin_idx: copy_vec(&t.node_to_pin_idx),
        routes,
    }
}

/// Whether a net is one of the first `n` of a list.
pub open spec fn is_among(ids: Seq<usize>, n: int, i: int) -> bool {
    exists|k: int| 0 <= k < n && #[trigger] ids[k] == i
}

proof fn lemma_one_more(ids: Seq<usize>, n: int, i: int)
    requires
        0 <= n < ids.len(),
    ensures
        is_among(ids, n + 1, i) == (is_among(ids, n, i) || ids[n] == i),
{
    if is_among(ids, n, i) {
        let k = choose|k: int| 0 <= k < n && #[trigger] ids[k] == i;
        assert(ids[k] == i);
    }
    if ids[n] == i {
        assert(is_among(ids, n + 1, i));
    }
}

/// Whether a slot holds a copy of a net's tree, or none where the net has none.
pub open spec fn is_saved(tree: Option<StTree>, saved: Option<StTree>) -> bool {
    match tree {
        Some(t) => saved matches Some(s) && is_tree_copy(t, s, false),
        None => saved is None,
    }
}

/// Saves the trees of the routed nets, each at its net's number; the other slots stay empty.
pub fn copy_rs(net_ids: &[usize], trees: &Vec<Option<StTree>>) -> (bk: Vec<Option<StTree>>)
    requires
        forall|k: int| 0 <= k < net_ids@.len() ==> (#[trigger] net_ids@[k]) < trees@.len(),
    ensures
        bk@.len() == trees@.len(),
        forall|i: int| 0 <= i < trees@.len() ==> if is_among(net_ids@, net_ids@.len() as int, i) { is_saved(trees@[i], #[trigger] bk@[i]) } else { bk@[i] is None },
{
    let mut bk: Vec<Option<StTree>> = Vec::new();
    let mut i: usize = 0;
    while i < trees.len()
        invariant
            i <= trees@.len(),
            bk@.len() == i,
            forall|j: int| 0 <= j < i ==> (#[trigger] bk@[j]) is None,
        decreases trees@.len() - i,
    {
        bk.push(None);
        i += 1;
    }
    let mut k: usize = 0;
    while k < net_ids.len()
        invariant
            k <= net_ids@.len(),
            forall|k: int| 0 <= k < net_ids@.len() ==> (#[trigger] net_ids@[k]) < trees@.len(),
            bk@.len() == trees@.len(),
            forall|i: int| 0 <= i < trees@.len() ==> if is_among(net_ids@, k as int, i) { is_saved(trees@[i], #[trigger] bk@[i]) } else { bk@[i] is None },
        decreases net_ids@.len() - k,
    {
        assert(net_ids@[k as int] < trees@.len());
        let id: usize = net_ids[k];
        let saved: Option<StTree> = match &trees[id] {
            Some(t) => Some(copy_tree(t, false)),
            None => None,
        };
        bk.set(id, saved);
        proof {
            assert forall|i: int| 0 <= i < trees@.len() implies #[trigger] is_among(net_ids@, k + 1, i) == (is_among(net_ids@, k as int, i) || i == id) by {
            lemma_one_more(net_ids@, k as int, i);
        }
        }
        k += 1;
    }
    bk
}

// ---- charges ----

/// A charge of an edge of the plane to a net; a negative one gives back.
#[derive(Debug, Clone, Copy, PartialEq, Eq, Structural)]
pub struct PlaneCharge {
    pub net: usize,
    pub edge: PlaneEdge,
    pub amount: i32,
}

/// The charges of some edges to a net, each of one amount.
pub open spec fn charges_of(net: usize, edges: Seq<PlaneEdge>, amount: int) -> Seq<PlaneCharge> {
    edges.map_values(|e: PlaneEdge| PlaneCharge { net, edge: e, amount: amount as i32 })
}

fn push_charges(out: &mut Vec<PlaneCharge>, net: usize, edges: &Vec<PlaneEdge>, amount: i32)
    ensures
        final(out)@ == old(out)@ + charges_of(net, edges@, amount as int),
{
    let ghost out0 = out@;
    let mut k: usize = 0;
    assert(out@ =~= out0 + charges_of(net, edges@.take(0), amount as int));
    while k < edges.len()
        invariant
            k <= edges@.len(),
            out@ == out0 + charges_of(net, edges@.take(k as int), amount as int),
        decreases edges@.len() - k,
    {
        out.push(PlaneCharge { net, edge: edges[k], amount });
        k += 1;
        assert(out@ =~= out0 + charges_of(net, edges@.take(k as int), amount as int));
    }
    assert(edges@.take(k as int) =~= edges@);
}

/// The edges that the first `n` branches of a tree take: those of the routes of branches with a length.
pub open spec fn tree_takes(t: StTree, n: int) -> Seq<PlaneEdge>
    decreases n,
{
    if n <= 0 {
        Seq::empty()
    } else {
        tree_takes(t, n - 1) + (if t.edges@[n - 1].len > 0 { route_edges_upto(t.routes@[n - 1].grids@, t.routes@[n - 1].routelen as int) } else { Seq::empty() })
    }
}

/// The edges that a tree takes.
pub open spec fn takes(t: StTree) -> Seq<PlaneEdge> {
    tree_takes(t, t.edges@.len() as int)
}

/// Whether every branch has a route, with the points that its length speaks of.
pub open spec fn routes_fit(t: StTree) -> bool {
    &&& t.routes@.len() == t.edges@.len()
    &&& forall|k: int| 0 <= k < t.routes@.len() ==> ((#[trigger] t.routes@[k]).routelen > 0 ==> t.routes@[k].routelen < t.routes@[k].grids@.len())
}

fn tree_edges_taken(t: &StTree) -> (out: Vec<PlaneEdge>)
    requires
        routes_fit(*t),
    ensures
        out@ == takes(*t),
{
    let mut out: Vec<PlaneEdge> = Vec::new();
    let total: usize = t.edges.len();
    let mut n: usize = 0;
    while n < total
        invariant
            n <= total == t.edges@.len(),
            routes_fit(*t),
            out@ == tree_takes(*t, n as int),
        decreases total - n,
    {
        assert(t.routes@[n as int].routelen > 0 ==> t.routes@[n as int].routelen < t.routes@[n as int].grids@.len());
        let ghost out0 = out@;
        if t.edges[n].len > 0 {
            let mut more = route_edges(&t.routes[n].grids, t.routes[n].routelen);
            out.append(&mut more);
        }
        n += 1;
        assert(out@ =~= tree_takes(*t, n as int));
    }
    out
}

/// What the trees of the first `n` nets of a list take, each edge at its net's cost taken `sign` times.
pub open spec fn usage_of_trees(ids: Seq<usize>, costs: Seq<i8>, trees: Seq<Option<StTree>>, sign: int, n: int) -> Seq<PlaneCharge>
    decreases n,
{
    if n <= 0 {
        Seq::empty()
    } else {
        let id = ids[n - 1];
        usage_of_trees(ids, costs, trees, sign, n - 1) + (match trees[id as int] {
            Some(t) => charges_of(id, takes(t), sign * costs[id as int]),
            None => Seq::empty(),
        })
    }
}

/// Whether every tree of a list fits.
pub open spec fn trees_fit(trees: Seq<Option<StTree>>) -> bool {
    forall|i: int| 0 <= i < trees.len() ==> ((#[trigger] trees[i]) matches Some(t) ==> routes_fit(t))
}

fn push_usage(out: &mut Vec<PlaneCharge>, ids: &[usize], costs: &Vec<i8>, trees: &Vec<Option<StTree>>, gives_back: bool)
    requires
        costs@.len() == trees@.len(),
        trees_fit(trees@),
        forall|k: int| 0 <= k < ids@.len() ==> (#[trigger] ids@[k]) < trees@.len(),
    ensures
        final(out)@ == old(out)@ + usage_of_trees(ids@, costs@, trees@, if gives_back { -1 } else { 1 }, ids@.len() as int),
{
    let ghost out0 = out@;
    let ghost sign = if gives_back { -1int } else { 1 };
    let mut n: usize = 0;
    assert(out@ =~= out0 + usage_of_trees(ids@, costs@, trees@, sign, 0));
    while n < ids.len()
        invariant
            n <= ids@.len(),
            costs@.len() == trees@.len(),
            trees_fit(trees@),
            forall|k: int| 0 <= k < ids@.len() ==> (#[trigger] ids@[k]) < trees@.len(),
            sign == if gives_back { -1int } else { 1 },
            out@ == out0 + usage_of_trees(ids@, costs@, trees@, sign, n as int),
        decreases ids@.len() - n,
    {
        assert(ids@[n as int] < trees@.len());
        let id: usize = ids[n];
        assert(trees@[id as int] matches Some(t) ==> routes_fit(t));
        let cost: i32 = costs[id] as i32;
        match &trees[id] {
            Some(t) => {
                let edges = tree_edges_taken(t);
                push_charges(out, id, &edges, if gives_back { -cost } else { cost });
            },
            None => {},
        }
        n += 1;
        assert(out@ =~= out0 + usage_of_trees(ids@, costs@, trees@, sign, n as int));
    }
}

/// Whether a net's tree is put back: its slot holds a copy of the saved one, its routes as maze routes.
pub open spec fn is_put_back(saved: Option<StTree>, before: Option<StTree>, after: Option<StTree>) -> bool {
    match saved {
        Some(s) => after matches Some(t) && is_tree_copy(s, t, true),
        None => after == before,
    }
}

/// The saved tree of a net: none past the end of the list.
pub open spec fn saved_at(bk: Seq<Option<StTree>>, id: int) -> Option<StTree> {
    if 0 <= id < bk.len() { bk[id] } else { None }
}

/// Puts the saved trees back and moves what they take with them: first every net's tree is given back, then
/// those put back are charged. Nothing happens where nothing was saved. Gives the charges in order.
pub fn copy_br(net_ids: &[usize], costs: &Vec<i8>, trees: &mut Vec<Option<StTree>>, backup: Option<&Vec<Option<StTree>>>) -> (charges: Vec<PlaneCharge>)
    requires
        costs@.len() == old(trees)@.len(),
        trees_fit(old(trees)@),
        backup matches Some(bk) ==> trees_fit(bk@),
        forall|k: int| 0 <= k < net_ids@.len() ==> (#[trigger] net_ids@[k]) < old(trees)@.len(),
    ensures
        final(trees)@.len() == old(trees)@.len(),
        trees_fit(final(trees)@),
        match backup {
            None => charges@ == Seq::<PlaneCharge>::empty() && *final(trees) == *old(trees),
            Some(bk) => {
                &&& charges@ == usage_of_trees(net_ids@, costs@, old(trees)@, -1, net_ids@.len() as int) + usage_of_trees(
                    net_ids@, costs@, final(trees)@, 1, net_ids@.len() as int)
                &&& forall|i: int| 0 <= i < old(trees)@.len() ==> if is_among(net_ids@, net_ids@.len() as int, i) {
                    is_put_back(saved_at(bk@, i), old(trees)@[i], #[trigger] final(trees)@[i])
                } else {
                    final(trees)@[i] == old(trees)@[i]
                }
            },
        },
{
    let mut charges: Vec<PlaneCharge> = Vec::new();
    match backup {
        None => {},
        Some(bk) => {
            let ghost t0 = trees@;
            push_usage(&mut charges, net_ids, costs, trees, true);
            let mut k: usize = 0;
            while k < net_ids.len()
                invariant
                    k <= net_ids@.len(),
                    trees@.len() == t0.len(),
                    trees_fit(t0),
                    trees_fit(trees@),
                    trees_fit(bk@),
                    forall|k: int| 0 <= k < net_ids@.len() ==> (#[trigger] net_ids@[k]) < t0.len(),
                    forall|i: int| 0 <= i < t0.len() ==> if is_among(net_ids@, k as int, i) {
                        is_put_back(saved_at(bk@, i), t0[i], #[trigger] trees@[i])
                    } else {
                        trees@[i] == t0[i]
                    },
                decreases net_ids@.len() - k,
            {
                assert(net_ids@[k as int] < t0.len());
                let id: usize = net_ids[k];
                let ghost t1 = trees@;
                if id < bk.len() {
                    match &bk[id] {
                        Some(s) => {
                            let t = copy_tree(s, true);
                            proof {
                                assert(bk@[id as int] matches Some(s) ==> routes_fit(s));
                                lemma_copies_fit(*s, t, true);
                            }
                            trees.set(id, Some(t));
                        },
                        None => {},
                    }
                }
                proof {
                    assert forall|i: int| 0 <= i < t0.len() implies #[trigger] is_among(net_ids@, k + 1, i) == (is_among(net_ids@, k as int, i) || i == id) by {
            lemma_one_more(net_ids@, k as int, i);
        }
                    assert forall|i: int| 0 <= i < trees@.len() implies ((#[trigger] trees@[i]) matches Some(t) ==> routes_fit(t)) by {
                        if i != id {
                            assert(trees@[i] == t1[i]);
                        } else {
                            assert(t1[i] matches Some(t) ==> routes_fit(t));
                        }
                    }
                }
                k += 1;
            }
                    push_usage(&mut charges, net_ids, costs, trees, false);
        },
    }
    charges
}

proof fn lemma_copies_fit(a: StTree, b: StTree, as_maze: bool)
    requires
        routes_fit(a),
        is_tree_copy(a, b, as_maze),
    ensures
        routes_fit(b),
        takes(b) == takes(a),
{
    assert forall|k: int| 0 <= k < b.routes@.len() implies ((#[trigger] b.routes@[k]).routelen > 0 ==> b.routes@[k].routelen < b.routes@[k].grids@.len()) by {
        assert(is_route_copy(a.routes@[k], b.routes@[k], if as_maze { RouteKind::MazeRoute } else { a.routes@[k].kind }));
        assert(a.routes@[k].routelen > 0 ==> a.routes@[k].routelen < a.routes@[k].grids@.len());
    }
    lemma_copies_take(a, b, as_maze, a.edges@.len() as int);
}

proof fn lemma_copies_take(a: StTree, b: StTree, as_maze: bool, n: int)
    requires
        is_tree_copy(a, b, as_maze),
        0 <= n <= a.edges@.len() == a.routes@.len(),
    ensures
        tree_takes(b, n) == tree_takes(a, n),
    decreases n,
{
    if n > 0 {
        lemma_copies_take(a, b, as_maze, n - 1);
        assert(is_route_copy(a.routes@[n - 1], b.routes@[n - 1], if as_maze { RouteKind::MazeRoute } else { a.routes@[n - 1].kind }));
    }
}


// ---- what charges come to ----

/// What charges come to on an edge, for a net.
pub open spec fn charge_total(charges: Seq<PlaneCharge>, net: usize, e: PlaneEdge) -> int
    decreases charges.len(),
{
    if charges.len() == 0 {
        0
    } else {
        let c = charges.last();
        charge_total(charges.drop_last(), net, e) + (if c.net == net && c.edge == e { c.amount as int } else { 0 })
    }
}

/// How often an edge is among some.
pub open spec fn times_taken(edges: Seq<PlaneEdge>, e: PlaneEdge) -> int
    decreases edges.len(),
{
    if edges.len() == 0 {
        0
    } else {
        times_taken(edges.drop_last(), e) + (if edges.last() == e { 1int } else { 0 })
    }
}

/// How often a net's tree takes an edge.
pub open spec fn tree_times(tree: Option<StTree>, e: PlaneEdge) -> int {
    match tree {
        Some(t) => times_taken(takes(t), e),
        None => 0,
    }
}

proof fn lemma_total_of_both(a: Seq<PlaneCharge>, b: Seq<PlaneCharge>, net: usize, e: PlaneEdge)
    ensures
        charge_total(a + b, net, e) == charge_total(a, net, e) + charge_total(b, net, e),
    decreases b.len(),
{
    if b.len() == 0 {
        assert(a + b =~= a);
    } else {
        lemma_total_of_both(a, b.drop_last(), net, e);
        assert((a + b).drop_last() =~= a + b.drop_last());
    }
}

proof fn lemma_total_of_charges(n: usize, edges: Seq<PlaneEdge>, amount: int, net: usize, e: PlaneEdge)
    requires
        -128 <= amount <= 128,
    ensures
        charge_total(charges_of(n, edges, amount), net, e) == (if n == net { amount * times_taken(edges, e) } else { 0 }),
    decreases edges.len(),
{
    let c = charges_of(n, edges, amount);
    if edges.len() == 0 {
        assert(amount * 0 == 0) by (nonlinear_arith);
    } else {
        lemma_total_of_charges(n, edges.drop_last(), amount, net, e);
        assert(c.drop_last() =~= charges_of(n, edges.drop_last(), amount));
        let k = times_taken(edges.drop_last(), e);
        assert(amount * (k + 1) == amount * k + amount) by (nonlinear_arith);
    }
}

proof fn lemma_total_of_trees(ids: Seq<usize>, costs: Seq<i8>, trees: Seq<Option<StTree>>, sign: int, n: int, net: usize, e: PlaneEdge)
    requires
        ids.no_duplicates(),
        0 <= n <= ids.len(),
        sign == 1 || sign == -1,
    ensures
        charge_total(usage_of_trees(ids, costs, trees, sign, n), net, e) == (if is_among(ids, n, net as int) {
            sign * costs[net as int] * tree_times(trees[net as int], e)
        } else {
            0
        }),
    decreases n,
{
    if n > 0 {
        lemma_total_of_trees(ids, costs, trees, sign, n - 1, net, e);
        lemma_one_more(ids, n - 1, net as int);
        let id = ids[n - 1];
        let before = usage_of_trees(ids, costs, trees, sign, n - 1);
        assert(sign * costs[id as int] * 0 == 0) by (nonlinear_arith);
        if id == net && is_among(ids, n - 1, net as int) {
            let k = choose|k: int| 0 <= k < n - 1 && #[trigger] ids[k] == net as int;
            assert(ids[k] != ids[n - 1]);
        }
        match trees[id as int] {
            Some(t) => {
                let more = charges_of(id, takes(t), sign * costs[id as int]);
                lemma_total_of_both(before, more, net, e);
                lemma_total_of_charges(id, takes(t), sign * costs[id as int], net, e);
            },
            None => {
                assert(before + Seq::<PlaneCharge>::empty() =~= before);
            },
        }
    }
}

/// What putting trees back comes to on an edge, for a net of the list: the net's cost as many times as its
/// new tree takes the edge more often than its old one. So a tree put back in its own place changes nothing.
pub proof fn putting_back_moves_the_usage(ids: Seq<usize>, costs: Seq<i8>, before: Seq<Option<StTree>>, after: Seq<Option<StTree>>, net: usize, e: PlaneEdge)
    requires
        ids.no_duplicates(),
        is_among(ids, ids.len() as int, net as int),
    ensures
        charge_total(
            usage_of_trees(ids, costs, before, -1, ids.len() as int) + usage_of_trees(ids, costs, after, 1, ids.len() as int),
            net,
            e,
        ) == costs[net as int] * (tree_times(after[net as int], e) - tree_times(before[net as int], e)),
{
    let n = ids.len() as int;
    lemma_total_of_both(usage_of_trees(ids, costs, before, -1, n), usage_of_trees(ids, costs, after, 1, n), net, e);
    lemma_total_of_trees(ids, costs, before, -1, n, net, e);
    lemma_total_of_trees(ids, costs, after, 1, n, net, e);
    let (c, a, b) = (costs[net as int] as int, tree_times(after[net as int], e), tree_times(before[net as int], e));
    assert(-1 * c * b + 1 * c * a == c * (a - b)) by (nonlinear_arith);
}

/// Saving trees and putting them back takes the same edges again.
pub proof fn a_saved_tree_takes_the_same(tree: Option<StTree>, saved: Option<StTree>, back: Option<StTree>)
    requires
        tree matches Some(t) ==> routes_fit(t),
        is_saved(tree, saved),
        is_put_back(saved, tree, back),
    ensures
        forall|e: PlaneEdge| tree_times(back, e) == tree_times(tree, e),
{
    match tree {
        Some(t) => {
            let s = saved->0;
            lemma_copies_fit(t, s, false);
            lemma_copies_fit(s, back->0, true);
        },
        None => {},
    }
}

// ---- rules given up ----

/// The edge of a straight step: none for a step in place or askew.
pub open spec fn straight_edge(a: (i32, i32), b: (i32, i32)) -> Option<PlaneEdge> {
    if a.0 != b.0 && a.1 != b.1 { None } else { step_edge(a, b) }
}

/// The edges of the straight ones of a route's first `n` steps.
pub open spec fn straight_edges(grids: Seq<(i32, i32)>, n: int) -> Seq<PlaneEdge>
    decreases n,
{
    if n <= 0 {
        Seq::empty()
    } else {
        match straight_edge(grids[n - 1], grids[n]) {
            Some(e) => straight_edges(grids, n - 1).push(e),
            None => straight_edges(grids, n - 1),
        }
    }
}

/// The edges under the first `n` routes of a tree.
pub open spec fn routes_take(t: StTree, n: int) -> Seq<PlaneEdge>
    decreases n,
{
    if n <= 0 { Seq::empty() } else { routes_take(t, n - 1) + straight_edges(t.routes@[n - 1].grids@, t.routes@[n - 1].routelen as int) }
}

fn routed_edges(t: &StTree) -> (out: Vec<PlaneEdge>)
    requires
        routes_fit(*t),
    ensures
        out@ == routes_take(*t, t.routes@.len() as int),
{
    let mut out: Vec<PlaneEdge> = Vec::new();
    let mut n: usize = 0;
    while n < t.routes.len()
        invariant
            n <= t.routes@.len(),
            routes_fit(*t),
            out@ == routes_take(*t, n as int),
        decreases t.routes@.len() - n,
    {
        let r = &t.routes[n];
        assert(t.routes@[n as int].routelen > 0 ==> t.routes@[n as int].routelen < t.routes@[n as int].grids@.len());
        let ghost out0 = out@;
        let mut k: i32 = 0;
        assert(out@ =~= out0 + straight_edges(r.grids@, 0));
        while k < r.routelen
            invariant
                0 <= k,
                k <= r.routelen || k == 0,
                r.routelen > 0 ==> r.routelen < r.grids@.len(),
                out@ == out0 + straight_edges(r.grids@, k as int),
            decreases r.routelen - k,
        {
            let (a, b) = (r.grids[k as usize], r.grids[k as usize + 1]);
            if a.0 == b.0 && a.1 == b.1 {
                assert(a == b);
            } else if a.0 == b.0 {
                out.push(PlaneEdge { x: a.0, y: if a.1 < b.1 { a.1 } else { b.1 }, horizontal: false });
            } else if a.1 == b.1 {
                out.push(PlaneEdge { x: if a.0 < b.0 { a.0 } else { b.0 }, y: a.1, horizontal: true });
            }
            k += 1;
            assert(out@ =~= out0 + straight_edges(r.grids@, k as int));
        }
        assert(straight_edges(r.grids@, k as int) == straight_edges(r.grids@, r.routelen as int));
        n += 1;
    }
    out
}

/// The costs of an edge once the first `n` nets of a list have given up their rule.
pub open spec fn costs_after(costs: Seq<i8>, ids: Seq<usize>, n: int) -> Seq<i8>
    decreases n,
{
    if n <= 0 { costs } else { costs_after(costs, ids, n - 1).update(ids[n - 1] as int, 1i8) }
}

/// Which nets have given up their rule once the first `n` of a list have.
pub open spec fn soft_after(soft: Seq<bool>, ids: Seq<usize>, n: int) -> Seq<bool>
    decreases n,
{
    if n <= 0 { soft } else { soft_after(soft, ids, n - 1).update(ids[n - 1] as int, true) }
}

/// The charges of the first `n` nets of a list that give up their rule: each net's edges are given back at its
/// cost, then charged at 1.
pub open spec fn demotion_charges(ids: Seq<usize>, costs: Seq<i8>, trees: Seq<Option<StTree>>, n: int) -> Seq<PlaneCharge>
    decreases n,
{
    if n <= 0 {
        Seq::empty()
    } else {
        let id = ids[n - 1];
        let t = trees[id as int]->0;
        let edges = routes_take(t, t.routes@.len() as int);
        demotion_charges(ids, costs, trees, n - 1) + charges_of(id, edges, -costs_after(costs, ids, n - 1)[id as int]) + charges_of(id, edges, 1)
    }
}

/// The words on a net without a tree.
pub open spec fn no_tree(id: usize) -> Seq<char> {
    "soft-NDR: net "@ + dec_nat(id as nat) + " has no 2D tree"@
}

/// What giving up rules leaves: the nets, the charges, and where it stopped.
pub open spec fn is_demoted(
    r: Result<Vec<PlaneCharge>, String>, ids: Seq<usize>, trees: Seq<Option<StTree>>, costs: Seq<i8>, soft: Seq<bool>, costs_now: Seq<i8>, soft_now: Seq<bool>,
) -> bool {
    match r {
        Ok(charges) => {
            &&& forall|k: int| 0 <= k < ids.len() ==> trees[(#[trigger] ids[k]) as int] is Some
            &&& charges@ == demotion_charges(ids, costs, trees, ids.len() as int)
            &&& costs_now == costs_after(costs, ids, ids.len() as int)
            &&& soft_now == soft_after(soft, ids, ids.len() as int)
        },
        Err(e) => exists|k: int| {
            &&& 0 <= k < ids.len()
            &&& trees[(#[trigger] ids[k]) as int] is None
            &&& forall|j: int| 0 <= j < k ==> trees[(#[trigger] ids[j]) as int] is Some
            &&& e@ == no_tree(ids[k])
            &&& costs_now == costs_after(costs, ids, k)
            &&& soft_now == soft_after(soft, ids, k)
        },
    }
}

/// Gives up the rules of nets, one by one: a net's usage is given back at its cost and charged anew at 1.
/// Stops at a net without a tree.
pub fn apply_soft_ndr(ids: &Vec<usize>, costs: &mut Vec<i8>, soft: &mut Vec<bool>, trees: &Vec<Option<StTree>>) -> (r: Result<Vec<PlaneCharge>, String>)
    requires
        old(costs)@.len() == trees@.len(),
        old(soft)@.len() == trees@.len(),
        trees_fit(trees@),
        forall|k: int| 0 <= k < ids@.len() ==> (#[trigger] ids@[k]) < trees@.len(),
    ensures
        is_demoted(r, ids@, trees@, old(costs)@, old(soft)@, final(costs)@, final(soft)@),
        final(costs)@.len() == old(costs)@.len(),
        final(soft)@.len() == old(soft)@.len(),
{
    let ghost (c0, s0) = (costs@, soft@);
    let mut out: Vec<PlaneCharge> = Vec::new();
    let mut n: usize = 0;
    while n < ids.len()
        invariant
            n <= ids@.len(),
            c0 == old(costs)@,
            s0 == old(soft)@,
            costs@.len() == trees@.len() == c0.len(),
            soft@.len() == trees@.len() == s0.len(),
            trees_fit(trees@),
            forall|k: int| 0 <= k < ids@.len() ==> (#[trigger] ids@[k]) < trees@.len(),
            forall|k: int| 0 <= k < n ==> trees@[(#[trigger] ids@[k]) as int] is Some,
            out@ == demotion_charges(ids@, c0, trees@, n as int),
            costs@ == costs_after(c0, ids@, n as int),
            soft@ == soft_after(s0, ids@, n as int),
        decreases ids@.len() - n,
    {
        assert(ids@[n as int] < trees@.len());
        let id: usize = ids[n];
        assert(trees@[id as int] matches Some(t) ==> routes_fit(t));
        match &trees[id] {
            Some(t) => {
                let edges = routed_edges(t);
                let cost: i32 = costs[id] as i32;
                push_charges(&mut out, id, &edges, -cost);
                costs.set(id, 1);
                soft.set(id, true);
                push_charges(&mut out, id, &edges, 1);
            },
            None => {
                let mut s = String::from_str("soft-NDR: net ");
                push_nat(&mut s, id as u64);
                s.append(" has no 2D tree");
                let r: Result<Vec<PlaneCharge>, String> = Err(s);
                assert(trees@[ids@[n as int] as int] is None);
                assert(is_demoted(r, ids@, trees@, c0, s0, costs@, soft@));
                return r;
            },
        }
        n += 1;
    }
    Ok(out)
}

/// Gives up the rules of the congested nets that have one, the most congested first. Refused, with nothing
/// changed, where two of them are congested equally often.
pub fn soft_ndr_demotion(counts: &[(usize, i32)], costs: &mut Vec<i8>, soft: &mut Vec<bool>, trees: &Vec<Option<StTree>>) -> (r: Result<(Vec<usize>, Vec<PlaneCharge>), String>)
    requires
        old(costs)@.len() == trees@.len(),
        old(soft)@.len() == trees@.len(),
        trees_fit(trees@),
        forall|k: int| 0 <= k < counts@.len() ==> (#[trigger] counts@[k]).0 < trees@.len(),
    ensures
        has_tie(counts@) ==> (r matches Err(e) && e@ == tie_words()) && *final(costs) == *old(costs) && *final(soft) == *old(soft),
        !has_tie(counts@) ==> exists|p: Seq<usize>| #[trigger] is_order(turned(counts@), p) && ({
            let ids = p.map_values(|k: usize| counts@[k as int].0);
            match r {
                Ok((demoted, charges)) => demoted@ == ids && is_demoted(Ok(charges), ids, trees@, old(costs)@, old(soft)@, final(costs)@, final(soft)@),
                Err(e) => is_demoted(Err(e), ids, trees@, old(costs)@, old(soft)@, final(costs)@, final(soft)@),
            }
        }),
{
    match demotion_order(counts) {
        Err(e) => Err(e),
        Ok(ids) => {
            let ghost p = choose|p: Seq<usize>| #[trigger] is_order(turned(counts@), p) && ids@ == p.map_values(|k: usize| counts@[k as int].0);
            assert forall|k: int| 0 <= k < ids@.len() implies (#[trigger] ids@[k]) < trees@.len() by {
                assert(p[k] < counts@.len());
                assert(counts@[p[k] as int].0 < trees@.len());
            }
            let ghost i0 = ids@;
            match apply_soft_ndr(&ids, costs, soft, trees) {
                Ok(charges) => {
                    let r: Result<(Vec<usize>, Vec<PlaneCharge>), String> = Ok((ids, charges));
                    assert(is_order(turned(counts@), p));
                    r
                },
                Err(e) => {
                    assert(is_order(turned(counts@), p));
                    Err(e)
                },
            }
        },
    }
}

/// The edges of the grid that a tree takes are those of the routes of its edges with a length.
pub proof fn a_tree_takes_the_routes_of_its_edges_with_a_length(t: StTree, n: int)
    requires
        0 <= n,
    ensures
        tree_takes(t, n) == all_of(
            n,
            |k: int| if t.edges@[k].len > 0 { route_edges_upto(t.routes@[k].grids@, t.routes@[k].routelen as int) } else { Seq::empty() },
        ),
    decreases n,
{
    let f = |k: int| if t.edges@[k].len > 0 { route_edges_upto(t.routes@[k].grids@, t.routes@[k].routelen as int) } else { Seq::empty() };
    if n > 0 {
        a_tree_takes_the_routes_of_its_edges_with_a_length(t, n - 1);
        lemma_all_next(n - 1, f);
    } else {
        lemma_all_none(f);
    }
    assert(tree_takes(t, n) =~= all_of(n, f));
}

/// Every net listed with a tree is charged, once for each edge that the tree takes, its own cost
/// with the sign given.
pub proof fn every_listed_net_is_charged_for_its_tree(ids: Seq<usize>, costs: Seq<i8>, trees: Seq<Option<StTree>>, sign: int, n: int)
    requires
        0 <= n,
    ensures
        usage_of_trees(ids, costs, trees, sign, n) == all_of(
            n,
            |k: int| if trees[ids[k] as int] is Some { takes(trees[ids[k] as int]->Some_0).map_values(|e: PlaneEdge| PlaneCharge { net: ids[k], edge: e, amount: (sign * costs[ids[k] as int]) as i32 }) } else { Seq::empty() },
        ),
    decreases n,
{
    let f = |k: int| if trees[ids[k] as int] is Some { takes(trees[ids[k] as int]->Some_0).map_values(|e: PlaneEdge| PlaneCharge { net: ids[k], edge: e, amount: (sign * costs[ids[k] as int]) as i32 }) } else { Seq::empty() };
    if n > 0 {
        every_listed_net_is_charged_for_its_tree(ids, costs, trees, sign, n - 1);
        lemma_all_next(n - 1, f);
    } else {
        lemma_all_none(f);
    }
    assert(usage_of_trees(ids, costs, trees, sign, n) =~= all_of(n, f));
}

/// The edges of a route are those of its steps that move one way only, in order.
pub proof fn the_straight_edges_of_a_route_are_its_straight_steps(grids: Seq<(i32, i32)>, n: int)
    requires
        0 <= n,
    ensures
        straight_edges(grids, n) == all_of(
            n,
            |k: int| if straight_edge(grids[k], grids[k + 1]) is Some { seq![straight_edge(grids[k], grids[k + 1])->Some_0] } else { Seq::empty() },
        ),
    decreases n,
{
    let f = |k: int| if straight_edge(grids[k], grids[k + 1]) is Some { seq![straight_edge(grids[k], grids[k + 1])->Some_0] } else { Seq::empty() };
    if n > 0 {
        the_straight_edges_of_a_route_are_its_straight_steps(grids, n - 1);
        lemma_all_next(n - 1, f);
    } else {
        lemma_all_none(f);
    }
    assert(straight_edges(grids, n) =~= all_of(n, f));
}

/// The edges that all routes of a tree take are those of each, route by route.
pub proof fn the_routes_of_a_tree_take_their_straight_steps(t: StTree, n: int)
    requires
        0 <= n,
    ensures
        routes_take(t, n) == all_of(
            n,
            |k: int| straight_edges(t.routes@[k].grids@, t.routes@[k].routelen as int),
        ),
    decreases n,
{
    let f = |k: int| straight_edges(t.routes@[k].grids@, t.routes@[k].routelen as int);
    if n > 0 {
        the_routes_of_a_tree_take_their_straight_steps(t, n - 1);
        lemma_all_next(n - 1, f);
    } else {
        lemma_all_none(f);
    }
    assert(routes_take(t, n) =~= all_of(n, f));
}

/// A net that gives up its rule costs one from then on, and every other net what it did; it is marked, and
/// no other net's mark changes.
pub proof fn a_demoted_net_costs_one(costs: Seq<i8>, soft: Seq<bool>, ids: Seq<usize>, n: int, i: int)
    requires
        0 <= n <= ids.len(),
        0 <= i < costs.len(),
        soft.len() == costs.len(),
        forall|k: int| 0 <= k < ids.len() ==> (#[trigger] ids[k]) < costs.len(),
    ensures
        costs_after(costs, ids, n).len() == costs.len(),
        soft_after(soft, ids, n).len() == soft.len(),
        is_among(ids, n, i) ==> costs_after(costs, ids, n)[i] == 1 && soft_after(soft, ids, n)[i],
        !is_among(ids, n, i) ==> costs_after(costs, ids, n)[i] == costs[i] && soft_after(soft, ids, n)[i] == soft[i],
    decreases n,
{
    if n > 0 {
        a_demoted_net_costs_one(costs, soft, ids, n - 1, i);
        lemma_one_more(ids, n - 1, i);
        assert(ids[n - 1] < costs.len());
    }
}

/// What giving up rules comes to on an edge, for a net: the edge is charged one in place of the net's cost,
/// as often as the net's routes take it; a net that keeps its rule is charged nothing.
pub proof fn giving_up_a_rule_charges_the_difference(ids: Seq<usize>, costs: Seq<i8>, trees: Seq<Option<StTree>>, n: int, net: usize, e: PlaneEdge)
    requires
        ids.no_duplicates(),
        0 <= n <= ids.len(),
        forall|k: int| 0 <= k < ids.len() ==> (#[trigger] ids[k]) < costs.len(),
    ensures
        ({
            let t = trees[net as int]->0;
            let times = times_taken(routes_take(t, t.routes@.len() as int), e);
            charge_total(demotion_charges(ids, costs, trees, n), net, e) == (if is_among(ids, n, net as int) { (1 - costs[net as int]) * times } else { 0 })
        }),
    decreases n,
{
    if n > 0 {
        giving_up_a_rule_charges_the_difference(ids, costs, trees, n - 1, net, e);
        lemma_one_more(ids, n - 1, net as int);
        let id = ids[n - 1];
        assert(id < costs.len());
        let t = trees[id as int]->0;
        let edges = routes_take(t, t.routes@.len() as int);
        if is_among(ids, n - 1, id as int) {
            let k = choose|k: int| 0 <= k < n - 1 && #[trigger] ids[k] == id as int;
            assert(ids[k] != ids[n - 1]);
        }
        let soft = Seq::new(costs.len(), |i: int| false);
        a_demoted_net_costs_one(costs, soft, ids, n - 1, id as int);
        let c = costs[id as int] as int;
        let before = demotion_charges(ids, costs, trees, n - 1);
        let (off, on) = (charges_of(id, edges, -c), charges_of(id, edges, 1));
        lemma_total_of_both(before, off, net, e);
        lemma_total_of_both(before + off, on, net, e);
        lemma_total_of_charges(id, edges, -c, net, e);
        lemma_total_of_charges(id, edges, 1, net, e);
        let k = times_taken(edges, e);
        assert(-c * k + 1 * k == (1 - c) * k) by (nonlinear_arith);
    }
}

} // verus!
