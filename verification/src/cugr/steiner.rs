//! The Steiner tree over the cells that a net is reached at, from the branches that a tree builder gives.

use vstd::prelude::*;
use vstd::string::StringExecFns;

use crate::cugr::access::{AccessPoint, AccessPointMap, PatternError};
use crate::cugr::geo::{Interval, Point};
use crate::cugr::grnet::GrNet;

verus! {

/// A node of the tree: a cell, the layers that its pins need (invalid for none), and its children.
#[derive(Debug)]
pub struct SteinerNode {
    pub p: Point,
    pub fixed: Interval,
    pub children: Vec<usize>,
}

/// A Steiner tree.
#[derive(Debug)]
pub struct SteinerTree {
    pub nodes: Vec<SteinerNode>,
    pub root: usize,
    /// The branch that the tree is rooted at.
    pub root_branch: usize,
}

/// A branch that a tree builder gives: its place and the branch that it is linked to, itself for none.
#[derive(Debug, Clone, Copy, PartialEq, Eq, Structural)]
pub struct TreeBranch {
    pub x: i32,
    pub y: i32,
    pub n: usize,
}

/// What a tree builder is asked: the cells by x and then y, and which of them drives.
#[derive(Debug, PartialEq, Eq)]
pub struct SteinerInput {
    pub xs: Vec<i32>,
    pub ys: Vec<i32>,
    pub driver_index: usize,
}

/// A node with its children as places.
#[verifier::ext_equal]
pub struct SNode {
    pub p: Point,
    pub fixed: Interval,
    pub children: Seq<int>,
}

pub open spec fn snode(n: SteinerNode) -> SNode {
    SNode { p: n.p, fixed: n.fixed, children: n.children@.map_values(|c: usize| c as int) }
}

pub open spec fn snodes(nodes: Seq<SteinerNode>) -> Seq<SNode> {
    nodes.map_values(|n: SteinerNode| snode(n))
}

/// The layers that no pin needs.
pub open spec fn no_layers() -> Interval {
    Interval { low: i32::MAX, high: i32::MIN }
}

// ---- walking ----

/// Whether every child ranks below its parent, so that no node is below itself.
pub open spec fn ranked(nodes: Seq<SNode>, rank: Seq<int>) -> bool {
    &&& rank.len() == nodes.len()
    &&& forall|n: int| 0 <= n < nodes.len() ==> #[trigger] rank[n] >= 0
    &&& forall|n: int, k: int|
        0 <= n < nodes.len() && 0 <= k < nodes[n].children.len() ==> 0 <= #[trigger] nodes[n].children[k] < nodes.len() && rank[nodes[n].children[k]] < rank[n]
}

/// Whether no node of a tree is below itself.
pub open spec fn is_acyclic(nodes: Seq<SNode>) -> bool {
    exists|rank: Seq<int>| #[trigger] ranked(nodes, rank)
}

/// A node and all below it, given how the nodes rank.
pub open spec fn walk_below(nodes: Seq<SNode>, rank: Seq<int>, n: int) -> Seq<int>
    decreases rank[n], 1int, 0int,
{
    seq![n] + walk_kids(nodes, rank, n, 0)
}

/// All below the children of a node from the `k`-th on.
pub open spec fn walk_kids(nodes: Seq<SNode>, rank: Seq<int>, n: int, k: int) -> Seq<int>
    decreases rank[n], 0int, nodes[n].children.len() - k,
{
    if 0 <= k < nodes[n].children.len() && 0 <= rank[nodes[n].children[k]] < rank[n] {
        walk_below(nodes, rank, nodes[n].children[k]) + walk_kids(nodes, rank, n, k + 1)
    } else {
        Seq::empty()
    }
}

/// What a stack of nodes still has to give, from its top down.
spec fn still(nodes: Seq<SNode>, rank: Seq<int>, stack: Seq<usize>) -> Seq<int>
    decreases stack.len(),
{
    if stack.len() == 0 { Seq::empty() } else { walk_below(nodes, rank, stack.last() as int) + still(nodes, rank, stack.drop_last()) }
}

impl SteinerTree {
    /// The nodes in walking order: a node, then each child's in order.
    pub open spec fn walk(&self) -> Seq<int> {
        walk_below(snodes(self.nodes@), choose|rank: Seq<int>| #[trigger] ranked(snodes(self.nodes@), rank), self.root as int)
    }

    /// The nodes in walking order: a node, then each child's in order.
    pub fn preorder(&self) -> (out: Vec<usize>)
        requires
            is_acyclic(snodes(self.nodes@)),
            self.root < self.nodes@.len(),
        ensures
            out@.map_values(|n: usize| n as int) == self.walk(),
            forall|i: int| 0 <= i < out@.len() ==> #[trigger] out@[i] < self.nodes@.len(),
    {
        let mut out: Vec<usize> = Vec::new();
        let ghost nodes = snodes(self.nodes@);
        let ghost rank = choose|rank: Seq<int>| #[trigger] ranked(nodes, rank);
        let mut stack: Vec<usize> = Vec::new();
        stack.push(self.root);
        proof {
            assert(ranked(nodes, rank));
            assert(stack@.drop_last() =~= Seq::empty());
            assert(still(nodes, rank, stack@) =~= walk_below(nodes, rank, self.root as int) + still(nodes, rank, stack@.drop_last()));
            assert(out@.map_values(|n: usize| n as int) + still(nodes, rank, stack@) =~= self.walk());
        }
        while stack.len() > 0
            invariant
                nodes == snodes(self.nodes@),
                ranked(nodes, rank),
                forall|i: int| 0 <= i < stack@.len() ==> #[trigger] stack@[i] < nodes.len(),
                forall|i: int| 0 <= i < out@.len() ==> #[trigger] out@[i] < nodes.len(),
                out@.map_values(|n: usize| n as int) + still(nodes, rank, stack@) == self.walk(),
            decreases still(nodes, rank, stack@).len(),
        {
            let ghost stack0 = stack@;
            let ghost out0 = out@.map_values(|n: usize| n as int);
            let n: usize = match stack.pop() {
                Some(n) => n,
                None => 0,
            };
            assert(stack@ =~= stack0.drop_last());
            let ghost base = stack@;
            out.push(n);
            let total: usize = self.nodes[n].children.len();
            let mut k: usize = total;
            assert(nodes[n as int].children.len() == total);
            assert(walk_kids(nodes, rank, n as int, k as int) =~= Seq::empty());
            while k > 0
                invariant
                    nodes == snodes(self.nodes@),
                    ranked(nodes, rank),
                    n < nodes.len(),
                    k <= total == nodes[n as int].children.len(),
                    forall|i: int| 0 <= i < stack@.len() ==> #[trigger] stack@[i] < nodes.len(),
                    still(nodes, rank, stack@) == walk_kids(nodes, rank, n as int, k as int) + still(nodes, rank, base),
                decreases k,
            {
                k -= 1;
                let ghost s0 = stack@;
                let c: usize = self.nodes[n].children[k];
                assert(nodes[n as int].children[k as int] == c);
                stack.push(c);
                proof {
                    assert(stack@.drop_last() =~= s0);
                    assert(rank[c as int] >= 0);
                    assert(still(nodes, rank, stack@) == walk_below(nodes, rank, c as int) + still(nodes, rank, s0));
                    assert(still(nodes, rank, stack@) =~= walk_kids(nodes, rank, n as int, k as int) + still(nodes, rank, base));
                }
            }
            proof {
                let now = out@.map_values(|n: usize| n as int);
                assert(now =~= out0.push(n as int));
                assert(still(nodes, rank, stack0) == walk_below(nodes, rank, n as int) + still(nodes, rank, base));
                assert(now + still(nodes, rank, stack@) =~= out0 + still(nodes, rank, stack0));
            }
        }
        assert(still(nodes, rank, stack@) =~= Seq::empty());
        assert(out@.map_values(|n: usize| n as int) =~= self.walk());
        out
    }
}

// ---- what the builder is asked ----

/// The first cell of a map at a point, from the `k`-th on; none if it is not there.
pub open spec fn place_of(map: Seq<AccessPoint>, p: Point, k: int) -> Option<int>
    decreases map.len() - k,
{
    if k >= map.len() {
        None
    } else if map[k].p == p {
        Some(k)
    } else {
        place_of(map, p, k + 1)
    }
}

/// The place of the driver's cell, 0 where there is none.
pub open spec fn driver_place(net: GrNet, map: Seq<AccessPoint>) -> int {
    match net.driver_cell() {
        Some(p) => match place_of(map, p, 0) {
            Some(k) => k,
            None => 0,
        },
        None => 0,
    }
}

/// The place of a point in a map, if it is there.
pub fn find_place(map: &AccessPointMap, p: Point) -> (r: Option<usize>)
    ensures
        match r {
            Some(k) => place_of(map@, p, 0) == Some(k as int) && k < map@.len() && map@[k as int].p == p,
            None => place_of(map@, p, 0) is None,
        },
{
    let mut k: usize = 0;
    while k < map.len()
        invariant
            k <= map@.len(),
            place_of(map@, p, k as int) == place_of(map@, p, 0),
        decreases map@.len() - k,
    {
        if map[k].p == p {
            return Some(k);
        }
        k += 1;
    }
    None
}

/// What the tree builder is asked for a net: its cells by x and then y, and the driver's place among
/// them, 0 where the driver has none.
pub fn steiner_input(net: &GrNet, map: &AccessPointMap) -> (r: SteinerInput)
    ensures
        r.xs@ == map@.map_values(|a: AccessPoint| a.p.x),
        r.ys@ == map@.map_values(|a: AccessPoint| a.p.y),
        r.driver_index == driver_place(*net, map@),
{
    let mut xs: Vec<i32> = Vec::new();
    let mut ys: Vec<i32> = Vec::new();
    let mut k: usize = 0;
    while k < map.len()
        invariant
            k <= map@.len(),
            xs@ == map@.take(k as int).map_values(|a: AccessPoint| a.p.x),
            ys@ == map@.take(k as int).map_values(|a: AccessPoint| a.p.y),
        decreases map@.len() - k,
    {
        xs.push(map[k].p.x);
        ys.push(map[k].p.y);
        k += 1;
        assert(xs@ =~= map@.take(k as int).map_values(|a: AccessPoint| a.p.x));
        assert(ys@ =~= map@.take(k as int).map_values(|a: AccessPoint| a.p.y));
    }
    assert(map@.take(k as int) =~= map@);
    let driver_index: usize = match net.driver_access_point() {
        Some(p) => match find_place(map, p) {
            Some(k) => k,
            None => 0,
        },
        None => 0,
    };
    SteinerInput { xs, ys, driver_index }
}

// ---- from branches to a tree ----

pub open spec fn branch_point(b: TreeBranch) -> Point {
    Point { x: b.x, y: b.y }
}

/// The branches linked to each branch, from the first `m` links, both ways and in their order.
pub open spec fn linked_to(branches: Seq<TreeBranch>, m: int) -> Seq<Seq<int>>
    decreases m,
{
    if m <= 0 {
        Seq::new(branches.len(), |i: int| Seq::<int>::empty())
    } else {
        let a = linked_to(branches, m - 1);
        let (i, n) = (m - 1, branches[m - 1].n as int);
        if i == n {
            a
        } else {
            let b = a.update(i, a[i].push(n));
            b.update(n, b[n].push(i))
        }
    }
}

/// Whether a branch has one link, seen past those at its own place; none where two point at each other.
pub open spec fn is_end(branches: Seq<TreeBranch>, adj: Seq<Seq<int>>, i: int, fuel: nat) -> Option<bool>
    decreases fuel,
{
    if fuel == 0 {
        None
    } else if adj[i].len() != 1 {
        Some(false)
    } else if branch_point(branches[i]) != branch_point(branches[adj[i][0]]) {
        Some(true)
    } else {
        is_end(branches, adj, adj[i][0], (fuel - 1) as nat)
    }
}

/// The first branch from the `k`-th on with one link, the first of all if none has; none where two point
/// at each other before.
pub open spec fn first_end(branches: Seq<TreeBranch>, adj: Seq<Seq<int>>, k: int) -> Option<int>
    decreases branches.len() - k,
{
    if k >= branches.len() {
        Some(0)
    } else {
        match is_end(branches, adj, k, branches.len() + 1) {
            Some(true) => Some(k),
            Some(false) => first_end(branches, adj, k + 1),
            None => None,
        }
    }
}

/// The layers of a point in a map, none where it is not there.
pub open spec fn layers_of(map: Seq<AccessPoint>, p: Point) -> Interval {
    match place_of(map, p, 0) {
        Some(k) => map[k].layers,
        None => no_layers(),
    }
}

/// The nodes after a branch is grown below a node: a branch at its parent's place is merged into the
/// parent, any other becomes a node. Growing goes no deeper than `fuel`.
pub open spec fn grow(branches: Seq<TreeBranch>, adj: Seq<Seq<int>>, map: Seq<AccessPoint>, nodes: Seq<SNode>, parent: Option<int>, prev: Option<int>, cur: int, fuel: nat) -> Seq<SNode>
    decreases fuel, 1int, 0int,
{
    let p = branch_point(branches[cur]);
    if fuel == 0 {
        nodes
    } else if parent is Some && nodes[parent->0].p == p {
        grow_next(branches, adj, map, nodes, parent->0, prev, cur, 0, fuel)
    } else {
        let me = nodes.len() as int;
        let a = nodes.push(SNode { p, fixed: no_layers(), children: Seq::empty() });
        let b = grow_next(branches, adj, map, a, me, prev, cur, 0, fuel);
        let c = b.update(me, SNode { fixed: layers_of(map, p), ..b[me] });
        match parent {
            Some(q) => c.update(q, SNode { children: c[q].children.push(me), ..c[q] }),
            None => c,
        }
    }
}

/// The nodes after the links of a branch from the `k`-th on are grown below node `at`, but for the one
/// that it was reached by.
pub open spec fn grow_next(branches: Seq<TreeBranch>, adj: Seq<Seq<int>>, map: Seq<AccessPoint>, nodes: Seq<SNode>, at: int, prev: Option<int>, cur: int, k: int, fuel: nat) -> Seq<SNode>
    decreases fuel, 0int, adj[cur].len() - k,
{
    if fuel == 0 || k < 0 || k >= adj[cur].len() {
        nodes
    } else {
        let next = adj[cur][k];
        let a = if prev == Some(next) { nodes } else { grow(branches, adj, map, nodes, Some(at), Some(cur), next, (fuel - 1) as nat) };
        grow_next(branches, adj, map, a, at, prev, cur, k + 1, fuel)
    }
}

/// Whether every child stands after its parent, at another place.
pub open spec fn is_apart(nodes: Seq<SNode>) -> bool {
    forall|n: int, k: int|
        0 <= n < nodes.len() && 0 <= k < nodes[n].children.len() ==> n < #[trigger] nodes[n].children[k] < nodes.len() && nodes[nodes[n].children[k]].p != nodes[n].p
}

/// Whether nodes keep their places and come after others.
pub open spec fn keeps_places(a: Seq<SNode>, b: Seq<SNode>) -> bool {
    a.len() <= b.len() && forall|i: int| 0 <= i < a.len() ==> #[trigger] b[i].p == a[i].p
}

/// Whether links lie among the branches.
pub open spec fn links_ok(adj: Seq<Seq<int>>, n: int) -> bool {
    &&& adj.len() == n
    &&& forall|i: int, k: int| 0 <= i < n && 0 <= k < adj[i].len() ==> 0 <= #[trigger] adj[i][k] < n
}

pub open spec fn as_places(v: Seq<Vec<usize>>) -> Seq<Seq<int>> {
    v.map_values(|r: Vec<usize>| r@.map_values(|c: usize| c as int))
}

proof fn lemma_ordered_is_acyclic(nodes: Seq<SNode>)
    requires
        is_apart(nodes),
    ensures
        is_acyclic(nodes),
{
    let rank = Seq::new(nodes.len(), |n: int| nodes.len() - n);
    assert forall|n: int, k: int| 0 <= n < nodes.len() && 0 <= k < nodes[n].children.len() implies 0 <= #[trigger] nodes[n].children[k] < nodes.len() && rank[nodes[n].children[k]]
        < rank[n] by {}
    assert(ranked(nodes, rank));
}

fn find_links(branches: &Vec<TreeBranch>) -> (adj: Vec<Vec<usize>>)
    requires
        forall|i: int| 0 <= i < branches@.len() ==> (#[trigger] branches@[i]).n < branches@.len(),
    ensures
        as_places(adj@) == linked_to(branches@, branches@.len() as int),
        links_ok(as_places(adj@), branches@.len() as int),
{
    let mut adj: Vec<Vec<usize>> = Vec::new();
    let mut i: usize = 0;
    while i < branches.len()
        invariant
            i <= branches@.len(),
            adj@.len() == i,
            forall|k: int| 0 <= k < i ==> (#[trigger] adj@[k])@ == Seq::<usize>::empty(),
        decreases branches@.len() - i,
    {
        adj.push(Vec::new());
        i += 1;
    }
    assert(as_places(adj@) =~= linked_to(branches@, 0)) by {
        assert forall|k: int| 0 <= k < adj@.len() implies #[trigger] as_places(adj@)[k] == linked_to(branches@, 0)[k] by {
            assert(as_places(adj@)[k] =~= Seq::<int>::empty());
        }
    }
    let mut i: usize = 0;
    while i < branches.len()
        invariant
            forall|i: int| 0 <= i < branches@.len() ==> (#[trigger] branches@[i]).n < branches@.len(),
            i <= branches@.len() == adj@.len(),
            as_places(adj@) == linked_to(branches@, i as int),
            links_ok(as_places(adj@), branches@.len() as int),
        decreases branches@.len() - i,
    {
        let n: usize = branches[i].n;
        assert(branches@[i as int].n < branches@.len());
        if i != n {
            let ghost a0 = as_places(adj@);
            adj[i].push(n);
            let ghost a1 = as_places(adj@);
            proof {
                assert(a1 =~= a0.update(i as int, a0[i as int].push(n as int))) by {
                    assert(a1[i as int] =~= a0[i as int].push(n as int));
                }
            }
            adj[n].push(i);
            proof {
                let a2 = as_places(adj@);
                assert(a2 =~= a1.update(n as int, a1[n as int].push(i as int))) by {
                    assert(a2[n as int] =~= a1[n as int].push(i as int));
                }
                assert forall|j: int, k: int| 0 <= j < a2.len() && 0 <= k < a2[j].len() implies 0 <= #[trigger] a2[j][k] < branches@.len() by {
                    if j == n as int {
                        if k < a1[j].len() {
                            assert(a2[j][k] == a1[j][k]);
                            if j == i as int && k == a0[j].len() {} else {
                                assert(a1[j][k] == a0[j][k]);
                            }
                        }
                    } else if j == i as int {
                        if k < a0[j].len() {
                            assert(a2[j][k] == a0[j][k]);
                        }
                    } else {
                        assert(a2[j][k] == a0[j][k]);
                    }
                }
            }
        }
        i += 1;
    }
    adj
}

fn find_end(branches: &Vec<TreeBranch>, adj: &Vec<Vec<usize>>, start: usize) -> (r: Option<bool>)
    requires
        links_ok(as_places(adj@), branches@.len() as int),
        start < branches@.len(),
    ensures
        r == is_end(branches@, as_places(adj@), start as int, branches@.len() + 1),
{
    let ghost links = as_places(adj@);
    let mut index: usize = start;
    let mut step: usize = 0;
    let total: usize = branches.len();
    while step <= total
        invariant_except_break
            links == as_places(adj@),
            links_ok(links, branches@.len() as int),
            total == branches@.len(),
            index < total,
            step <= total + 1,
            is_end(branches@, links, index as int, (total + 1 - step) as nat) == is_end(branches@, links, start as int, branches@.len() + 1),
        ensures
            is_end(branches@, links, start as int, branches@.len() + 1) is None,
        decreases total + 1 - step,
    {
        assert(links[index as int].len() == adj@[index as int]@.len());
        if adj[index].len() != 1 {
            return Some(false);
        }
        let next: usize = adj[index][0];
        assert(links[index as int][0] == next);
        if branches[index].x != branches[next].x || branches[index].y != branches[next].y {
            return Some(true);
        }
        index = next;
        if step == total {
            assert(is_end(branches@, links, index as int, 0) is None);
            break;
        }
        step += 1;
    }
    None
}

fn grow_at(branches: &Vec<TreeBranch>, adj: &Vec<Vec<usize>>, map: &AccessPointMap, nodes: &mut Vec<SteinerNode>, parent: Option<usize>, prev: Option<usize>, cur: usize, fuel: usize)
    requires
        links_ok(as_places(adj@), branches@.len() as int),
        cur < branches@.len(),
        parent matches Some(q) ==> q < old(nodes)@.len(),
        is_apart(snodes(old(nodes)@)),
    ensures
        snodes(final(nodes)@) == grow(branches@, as_places(adj@), map@, snodes(old(nodes)@), as_int(parent), as_int(prev), cur as int, fuel as nat),
        is_apart(snodes(final(nodes)@)),
        keeps_places(snodes(old(nodes)@), snodes(final(nodes)@)),
        parent is None && fuel > 0 ==> final(nodes)@.len() > old(nodes)@.len(),
    decreases fuel, 1int, 0int,
{
    if fuel == 0 {
        return;
    }
    let p = Point { x: branches[cur].x, y: branches[cur].y };
    let ghost s0 = snodes(nodes@);
    match parent {
        Some(q) => {
            if nodes[q].p == p {
                grow_links(branches, adj, map, nodes, q, prev, cur, fuel);
                return;
            }
        },
        None => {},
    }
    let me: usize = nodes.len();
    nodes.push(SteinerNode { p, fixed: Interval { low: i32::MAX, high: i32::MIN }, children: Vec::new() });
    let ghost s1 = snodes(nodes@);
    proof {
        assert(s1 =~= s0.push(SNode { p, fixed: no_layers(), children: Seq::empty() })) by {
            assert(s1[me as int].children =~= Seq::<int>::empty());
        }
        assert forall|n: int, k: int| 0 <= n < s1.len() && 0 <= k < s1[n].children.len() implies n < #[trigger] s1[n].children[k] < s1.len() && s1[s1[n].children[k]].p != s1[n].p by {
            assert(s0[n].children[k] == s1[n].children[k]);
        }
    }
    grow_links(branches, adj, map, nodes, me, prev, cur, fuel);
    let ghost s2 = snodes(nodes@);
    assert(s2[me as int].p == s1[me as int].p);
    match find_place(map, p) {
        Some(k) => {
            nodes[me].fixed = map[k].layers;
        },
        None => {
            nodes[me].fixed = Interval { low: i32::MAX, high: i32::MIN };
        },
    }
    let ghost s3 = snodes(nodes@);
    proof {
        assert(s3 =~= s2.update(me as int, SNode { fixed: layers_of(map@, p), ..s2[me as int] }));
        assert forall|n: int, k: int| 0 <= n < s3.len() && 0 <= k < s3[n].children.len() implies n < #[trigger] s3[n].children[k] < s3.len() && s3[s3[n].children[k]].p != s3[n].p by {
            assert(s2[n].children[k] == s3[n].children[k]);
        }
    }
    match parent {
        Some(q) => {
            assert(s1[q as int].p == s0[q as int].p);
            assert(s2[q as int].p == s1[q as int].p);
            nodes[q].children.push(me);
            proof {
                let s4 = snodes(nodes@);
                assert(s4 =~= s3.update(q as int, SNode { children: s3[q as int].children.push(me as int), ..s3[q as int] })) by {
                    assert(s4[q as int].children =~= s3[q as int].children.push(me as int));
                }
                assert forall|n: int, k: int| 0 <= n < s4.len() && 0 <= k < s4[n].children.len() implies n < #[trigger] s4[n].children[k] < s4.len() && s4[s4[n].children[k]].p != s4[n].p by {
                    if n == q as int && k == s3[n].children.len() {
                        assert(s4[n].children[k] == me as int);
                    } else {
                        assert(s3[n].children[k] == s4[n].children[k]);
                    }
                }
                assert forall|i: int| 0 <= i < s0.len() implies #[trigger] s4[i].p == s0[i].p by {
                    assert(s1[i].p == s0[i].p);
                    assert(s2[i].p == s1[i].p);
                }
            }
        },
        None => {
            assert forall|i: int| 0 <= i < s0.len() implies #[trigger] s3[i].p == s0[i].p by {
                assert(s1[i].p == s0[i].p);
                assert(s2[i].p == s1[i].p);
            }
        },
    }
}

fn grow_links(branches: &Vec<TreeBranch>, adj: &Vec<Vec<usize>>, map: &AccessPointMap, nodes: &mut Vec<SteinerNode>, at: usize, prev: Option<usize>, cur: usize, fuel: usize)
    requires
        fuel > 0,
        links_ok(as_places(adj@), branches@.len() as int),
        cur < branches@.len(),
        at < old(nodes)@.len(),
        is_apart(snodes(old(nodes)@)),
    ensures
        snodes(final(nodes)@) == grow_next(branches@, as_places(adj@), map@, snodes(old(nodes)@), at as int, as_int(prev), cur as int, 0, fuel as nat),
        is_apart(snodes(final(nodes)@)),
        keeps_places(snodes(old(nodes)@), snodes(final(nodes)@)),
    decreases fuel, 0int, 0int,
{
    let ghost links = as_places(adj@);
    let ghost s0 = snodes(nodes@);
    let ghost all = grow_next(branches@, links, map@, s0, at as int, as_int(prev), cur as int, 0, fuel as nat);
    let mut k: usize = 0;
    assert(links[cur as int].len() == adj@[cur as int]@.len());
    while k < adj[cur].len()
        invariant
            fuel > 0,
            links == as_places(adj@),
            links_ok(links, branches@.len() as int),
            cur < branches@.len(),
            adj@.len() == branches@.len(),
            links[cur as int].len() == adj@[cur as int]@.len(),
            at < s0.len() <= nodes@.len(),
            k <= adj@[cur as int]@.len(),
            is_apart(snodes(nodes@)),
            keeps_places(s0, snodes(nodes@)),
            grow_next(branches@, links, map@, snodes(nodes@), at as int, as_int(prev), cur as int, k as int, fuel as nat) == all,
        decreases adj@[cur as int]@.len() - k,
    {
        let next: usize = adj[cur][k];
        assert(links[cur as int][k as int] == next);
        let skip = match prev {
            Some(p) => p == next,
            None => false,
        };
        assert(skip == (as_int(prev) == Some(next as int)));
        let ghost s1 = snodes(nodes@);
        if !skip {
            grow_at(branches, adj, map, nodes, Some(at), Some(cur), next, fuel - 1);
            proof {
                let s2 = snodes(nodes@);
                assert forall|i: int| 0 <= i < s0.len() implies #[trigger] s2[i].p == s0[i].p by {
                    assert(s1[i].p == s0[i].p);
                }
            }
        }
        k += 1;
    }
}

pub open spec fn as_int(p: Option<usize>) -> Option<int> {
    match p {
        Some(k) => Some(k as int),
        None => None,
    }
}

/// The Steiner tree of a net from the branches that the tree builder gives. One cell is the whole tree.
///
/// The root is the first branch with one link, seen past those at its own place. A branch at its
/// parent's place is merged into the parent. Every node takes the layers of its cell. Refused where two
/// branches of one link each at one place point at each other.
pub fn construct_steiner_tree(net: &GrNet, map: &AccessPointMap, branches: &Vec<TreeBranch>) -> (r: Result<SteinerTree, PatternError>)
    requires
        map@.len() != 1 ==> branches@.len() > 0,
        branches@.len() < usize::MAX,
        forall|i: int| 0 <= i < branches@.len() ==> (#[trigger] branches@[i]).n < branches@.len(),
    ensures
        ({
            let adj = linked_to(branches@, branches@.len() as int);
            match r {
                Ok(t) => {
                    &&& t.root == 0
                    &&& t.nodes@.len() > 0
                    &&& is_apart(snodes(t.nodes@))
                    &&& is_acyclic(snodes(t.nodes@))
                    &&& if map@.len() == 1 {
                        &&& t.root_branch == 0
                        &&& snodes(t.nodes@) == seq![SNode { p: map@[0].p, fixed: map@[0].layers, children: Seq::empty() }]
                    } else {
                        &&& first_end(branches@, adj, 0) == Some(t.root_branch as int)
                        &&& snodes(t.nodes@) == grow(branches@, adj, map@, Seq::empty(), None, None, t.root_branch as int, branches@.len())
                    }
                },
                Err(PatternError::DegenerateSteinerTree { net: name }) => {
                    &&& map@.len() != 1
                    &&& name@ == net.name@
                    &&& first_end(branches@, adj, 0) is None
                },
                _ => false,
            }
        }),
{
    let mut nodes: Vec<SteinerNode> = Vec::new();
    if map.len() == 1 {
        nodes.push(SteinerNode { p: map[0].p, fixed: map[0].layers, children: Vec::new() });
        proof {
            let s = snodes(nodes@);
            assert(s =~= seq![SNode { p: map@[0].p, fixed: map@[0].layers, children: Seq::empty() }]) by {
                assert(s[0].children =~= Seq::<int>::empty());
            }
            assert(is_apart(s));
            lemma_ordered_is_acyclic(s);
        }
        return Ok(SteinerTree { nodes, root: 0, root_branch: 0 });
    }
    let adj = find_links(branches);
    let ghost links = as_places(adj@);
    let mut root: usize = 0;
    let mut i: usize = 0;
    while i < branches.len()
        invariant_except_break
            root == 0,
            links == as_places(adj@),
            links_ok(links, branches@.len() as int),
            links == linked_to(branches@, branches@.len() as int),
            map@.len() != 1,
            i <= branches@.len(),
            first_end(branches@, links, i as int) == first_end(branches@, links, 0),
        ensures
            first_end(branches@, links, 0) == Some(root as int),
            root < branches@.len() || root == 0,
        decreases branches@.len() - i,
    {
        match find_end(branches, &adj, i) {
            Some(true) => {
                root = i;
                break;
            },
            Some(false) => {},
            None => {
                return Err(PatternError::DegenerateSteinerTree { net: String::from_str(net.name.as_str()) });
            },
        }
        i += 1;
    }
    assert(snodes(nodes@) =~= Seq::empty());
    grow_at(branches, &adj, map, &mut nodes, None, None, root, branches.len());
    proof {
        lemma_ordered_is_acyclic(snodes(nodes@));
    }
    Ok(SteinerTree { nodes, root: 0, root_branch: root })
}

/// Two branches are linked where one leads to the other, both ways, and no branch to itself.
pub proof fn branches_are_linked_both_ways(branches: Seq<TreeBranch>, m: int, u: int, v: int)
    requires
        0 <= m <= branches.len(),
        0 <= u < branches.len(),
        forall|i: int| 0 <= i < branches.len() ==> (#[trigger] branches[i]).n < branches.len(),
    ensures
        linked_to(branches, m).len() == branches.len(),
        linked_to(branches, m)[u].contains(v) <==> u != v && ((u < m && branches[u].n == v) || (0 <= v < m && branches[v].n == u)),
    decreases m,
{
    if m > 0 {
        branches_are_linked_both_ways(branches, m - 1, u, v);
        let a = linked_to(branches, m - 1);
        let (i, n) = (m - 1, branches[m - 1].n as int);
        let s = a[u];
        if i != n {
            let w = linked_to(branches, m)[u];
            if u == i {
                assert(w == s.push(n));
                lemma_one_more(s, n, v);
            } else if u == n {
                assert(w == s.push(i));
                lemma_one_more(s, i, v);
            } else {
                assert(w == s);
            }
        }
    }
}

proof fn lemma_one_more(s: Seq<int>, last: int, v: int)
    ensures
        s.push(last).contains(v) == (s.contains(v) || v == last),
{
    let t = s.push(last);
    assert(t[s.len() as int] == last);
    if s.contains(v) {
        let i = choose|i: int| 0 <= i < s.len() && s[i] == v;
        assert(t[i] == v);
    }
    if t.contains(v) {
        let i = choose|i: int| 0 <= i < t.len() && t[i] == v;
        if i < s.len() {
            assert(s[i] == v);
        }
    }
}

/// A cell is found where the first of the map's cells at the point stands, and wherever there is one.
pub proof fn the_first_cell_at_a_point_is_found(map: Seq<AccessPoint>, p: Point, k: int)
    requires
        0 <= k <= map.len(),
    ensures
        match place_of(map, p, k) {
            Some(i) => k <= i < map.len() && map[i].p == p && (forall|j: int| k <= j < i ==> (#[trigger] map[j]).p != p),
            None => forall|j: int| k <= j < map.len() ==> (#[trigger] map[j]).p != p,
        },
    decreases map.len() - k,
{
    if k < map.len() {
        the_first_cell_at_a_point_is_found(map, p, k + 1);
    }
}

/// Whether a tree has a node at a place.
pub open spec fn stands_at(nodes: Seq<SNode>, p: Point) -> bool {
    exists|i: int| 0 <= i < nodes.len() && (#[trigger] nodes[i]).p == p
}

/// Whether a node is the child of one before it.
pub open spec fn hangs_below(nodes: Seq<SNode>, i: int) -> bool {
    exists|n: int| 0 <= n < i && (#[trigger] nodes[n]).children.contains(i)
}

/// Whether a tree has a node at the place of a branch and of every branch that is reached from it, but
/// for the one that it was reached by, so many links deep.
pub open spec fn holds_branches(branches: Seq<TreeBranch>, adj: Seq<Seq<int>>, nodes: Seq<SNode>, prev: Option<int>, cur: int, depth: nat) -> bool
    decreases depth,
{
    depth > 0 ==> {
        &&& stands_at(nodes, branch_point(branches[cur]))
        &&& forall|k: int|
            0 <= k < adj[cur].len() && prev != Some(#[trigger] adj[cur][k]) ==> holds_branches(
                branches,
                adj,
                nodes,
                Some(cur),
                adj[cur][k],
                (depth - 1) as nat,
            )
    }
}

spec fn keeps(a: SNode, b: SNode) -> bool {
    a.p == b.p && a.fixed == b.fixed && a.children.is_prefix_of(b.children)
}

spec fn grows_to(t: Seq<SNode>, r: Seq<SNode>) -> bool {
    t.len() <= r.len() && forall|i: int| 0 <= i < t.len() ==> keeps(t[i], #[trigger] r[i])
}

proof fn lemma_grows_on(t: Seq<SNode>, r: Seq<SNode>, s: Seq<SNode>)
    requires
        grows_to(t, r),
        grows_to(r, s),
    ensures
        grows_to(t, s),
{
    assert forall|i: int| 0 <= i < t.len() implies keeps(t[i], #[trigger] s[i]) by {
        assert(keeps(t[i], r[i]) && keeps(r[i], s[i]));
    }
}

proof fn lemma_hangs_on(t: Seq<SNode>, r: Seq<SNode>, i: int)
    requires
        t.len() <= r.len(),
        forall|j: int| 0 <= j < t.len() ==> (#[trigger] t[j]).children.is_prefix_of(r[j].children),
        i < t.len(),
        hangs_below(t, i),
    ensures
        hangs_below(r, i),
{
    let n = choose|n: int| 0 <= n < i && (#[trigger] t[n]).children.contains(i);
    let k = choose|k: int| 0 <= k < t[n].children.len() && t[n].children[k] == i;
    assert(t[n].children.is_prefix_of(r[n].children));
    assert(r[n].children[k] == i);
}

proof fn lemma_holds_on(branches: Seq<TreeBranch>, adj: Seq<Seq<int>>, t: Seq<SNode>, r: Seq<SNode>, prev: Option<int>, cur: int, depth: nat)
    requires
        t.len() <= r.len(),
        forall|j: int| 0 <= j < t.len() ==> (#[trigger] t[j]).p == r[j].p,
        holds_branches(branches, adj, t, prev, cur, depth),
    ensures
        holds_branches(branches, adj, r, prev, cur, depth),
    decreases depth,
{
    if depth > 0 {
        let p = branch_point(branches[cur]);
        let i = choose|i: int| 0 <= i < t.len() && (#[trigger] t[i]).p == p;
        assert(r[i].p == p);
        assert forall|k: int| 0 <= k < adj[cur].len() && prev != Some(#[trigger] adj[cur][k]) implies holds_branches(
            branches,
            adj,
            r,
            Some(cur),
            adj[cur][k],
            (depth - 1) as nat,
        ) by {
            lemma_holds_on(branches, adj, t, r, Some(cur), adj[cur][k], (depth - 1) as nat);
        }
    }
}

proof fn lemma_grown(branches: Seq<TreeBranch>, adj: Seq<Seq<int>>, map: Seq<AccessPoint>, nodes: Seq<SNode>, parent: Option<int>, prev: Option<int>, cur: int, fuel: nat)
    requires
        parent matches Some(q) ==> 0 <= q < nodes.len(),
    ensures
        ({
            let r = grow(branches, adj, map, nodes, parent, prev, cur, fuel);
            &&& grows_to(nodes, r)
            &&& forall|i: int| nodes.len() <= i < r.len() ==> (#[trigger] r[i]).fixed == layers_of(map, r[i].p)
            &&& forall|i: int| nodes.len() <= i < r.len() && (parent is Some || i > nodes.len()) ==> #[trigger] hangs_below(r, i)
            &&& holds_branches(branches, adj, r, prev, cur, fuel)
        }),
    decreases fuel, 1int, 0int,
{
    let p = branch_point(branches[cur]);
    let r = grow(branches, adj, map, nodes, parent, prev, cur, fuel);
    assert forall|i: int| 0 <= i < nodes.len() implies keeps(nodes[i], #[trigger] nodes[i]) by {
        assert(nodes[i].children.is_prefix_of(nodes[i].children));
    }
    if fuel == 0 {
    } else if parent is Some && nodes[parent->0].p == p {
        lemma_next_grown(branches, adj, map, nodes, parent->0, prev, cur, 0, fuel);
        assert(keeps(nodes[parent->0], r[parent->0]));
        assert(stands_at(r, p));
    } else {
        let me = nodes.len() as int;
        let a = nodes.push(SNode { p, fixed: no_layers(), children: Seq::empty() });
        assert forall|i: int| 0 <= i < nodes.len() implies keeps(nodes[i], #[trigger] a[i]) by {
            assert(nodes[i].children.is_prefix_of(nodes[i].children));
        }
        lemma_next_grown(branches, adj, map, a, me, prev, cur, 0, fuel);
        let b = grow_next(branches, adj, map, a, me, prev, cur, 0, fuel);
        lemma_grows_on(nodes, a, b);
        assert(keeps(a[me], b[me]));
        let c = b.update(me, SNode { fixed: layers_of(map, p), ..b[me] });
        assert forall|i: int| 0 <= i < nodes.len() implies keeps(nodes[i], #[trigger] r[i]) by {
            assert(keeps(nodes[i], b[i]));
        }
        assert forall|j: int| 0 <= j < b.len() implies (#[trigger] b[j]).children.is_prefix_of(r[j].children) && b[j].p == r[j].p by {}
        assert(r[me].p == p);
        assert(stands_at(r, p));
        assert forall|i: int| nodes.len() <= i < r.len() && (parent is Some || i > nodes.len()) implies #[trigger] hangs_below(r, i) by {
            if i > me {
                lemma_hangs_on(b, r, i);
            } else {
                let q = parent->0;
                assert(r[q].children[c[q].children.len() as int] == me);
                assert(r[q].children.contains(me));
            }
        }
        assert forall|i: int| nodes.len() <= i < r.len() implies (#[trigger] r[i]).fixed == layers_of(map, r[i].p) by {
            if i > me {
                assert(b[i].fixed == layers_of(map, b[i].p));
            }
        }
        assert forall|k: int| 0 <= k < adj[cur].len() && prev != Some(#[trigger] adj[cur][k]) implies holds_branches(
            branches,
            adj,
            r,
            Some(cur),
            adj[cur][k],
            (fuel - 1) as nat,
        ) by {
            lemma_holds_on(branches, adj, b, r, Some(cur), adj[cur][k], (fuel - 1) as nat);
        }
    }
}

proof fn lemma_next_grown(branches: Seq<TreeBranch>, adj: Seq<Seq<int>>, map: Seq<AccessPoint>, nodes: Seq<SNode>, at: int, prev: Option<int>, cur: int, k: int, fuel: nat)
    requires
        0 <= at < nodes.len(),
        0 <= k,
        fuel > 0,
    ensures
        ({
            let r = grow_next(branches, adj, map, nodes, at, prev, cur, k, fuel);
            &&& grows_to(nodes, r)
            &&& forall|i: int| nodes.len() <= i < r.len() ==> (#[trigger] r[i]).fixed == layers_of(map, r[i].p)
            &&& forall|i: int| nodes.len() <= i < r.len() ==> #[trigger] hangs_below(r, i)
            &&& forall|j: int|
                k <= j < adj[cur].len() && prev != Some(#[trigger] adj[cur][j]) ==> holds_branches(
                    branches,
                    adj,
                    r,
                    Some(cur),
                    adj[cur][j],
                    (fuel - 1) as nat,
                )
        }),
    decreases fuel, 0int, adj[cur].len() - k,
{
    assert forall|i: int| 0 <= i < nodes.len() implies keeps(nodes[i], #[trigger] nodes[i]) by {
        assert(nodes[i].children.is_prefix_of(nodes[i].children));
    }
    if k < adj[cur].len() {
        let next = adj[cur][k];
        let a = if prev == Some(next) { nodes } else { grow(branches, adj, map, nodes, Some(at), Some(cur), next, (fuel - 1) as nat) };
        if prev != Some(next) {
            lemma_grown(branches, adj, map, nodes, Some(at), Some(cur), next, (fuel - 1) as nat);
        }
        lemma_next_grown(branches, adj, map, a, at, prev, cur, k + 1, fuel);
        let r = grow_next(branches, adj, map, nodes, at, prev, cur, k, fuel);
        lemma_grows_on(nodes, a, r);
        assert forall|i: int| nodes.len() <= i < r.len() implies (#[trigger] r[i]).fixed == layers_of(map, r[i].p) && hangs_below(r, i) by {
            if i < a.len() {
                assert(keeps(a[i], r[i]));
                assert(a[i].fixed == layers_of(map, a[i].p));
                assert(hangs_below(a, i));
                assert forall|j: int| 0 <= j < a.len() implies (#[trigger] a[j]).children.is_prefix_of(r[j].children) by {
                    assert(keeps(a[j], r[j]));
                }
                lemma_hangs_on(a, r, i);
            } else {
                assert(hangs_below(r, i));
            }
        }
        assert forall|i: int| nodes.len() <= i < r.len() implies #[trigger] hangs_below(r, i) by {
            assert(r[i].fixed == layers_of(map, r[i].p));
        }
        assert forall|j: int| k <= j < adj[cur].len() && prev != Some(#[trigger] adj[cur][j]) implies holds_branches(
            branches,
            adj,
            r,
            Some(cur),
            adj[cur][j],
            (fuel - 1) as nat,
        ) by {
            if j == k {
                assert forall|i: int| 0 <= i < a.len() implies (#[trigger] a[i]).p == r[i].p by {
                    assert(keeps(a[i], r[i]));
                }
                lemma_holds_on(branches, adj, a, r, Some(cur), next, (fuel - 1) as nat);
            }
        }
    }
}

/// The Steiner tree of branches hangs together and holds them all: every node but the first is the child
/// of one before it, every node has the layers of its cell in the map, and there is a node at the place of
/// the root's branch and of every branch reached from it, as many links deep as there are branches.
pub proof fn a_steiner_tree_holds_every_branch(branches: Seq<TreeBranch>, map: Seq<AccessPoint>, root: int)
    ensures
        ({
            let adj = linked_to(branches, branches.len() as int);
            let nodes = grow(branches, adj, map, Seq::empty(), None, None, root, branches.len());
            &&& forall|i: int| 0 <= i < nodes.len() ==> (#[trigger] nodes[i]).fixed == layers_of(map, nodes[i].p)
            &&& forall|i: int| 0 < i < nodes.len() ==> #[trigger] hangs_below(nodes, i)
            &&& holds_branches(branches, adj, nodes, None, root, branches.len())
        }),
{
    lemma_grown(branches, linked_to(branches, branches.len() as int), map, Seq::empty(), None, None, root, branches.len());
}

} // verus!
