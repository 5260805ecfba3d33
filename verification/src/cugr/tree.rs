//! A routing tree: its nodes in one list, each with its children, and the walks over it.

use vstd::prelude::*;

use crate::cugr::geo::Point;

verus! {

/// A node: a gcell on a layer, and the places of its children.
#[derive(Debug, PartialEq, Eq)]
pub struct GrTreeNode {
    pub layer: i32,
    pub p: Point,
    pub children: Vec<usize>,
}

/// A routing tree. The first node is the root.
#[derive(Debug, PartialEq, Eq)]
pub struct GrTree {
    pub nodes: Vec<GrTreeNode>,
}

/// Whether every child stands after its parent in the list.
pub open spec fn is_ordered(nodes: Seq<GrTreeNode>) -> bool {
    forall|n: int, k: int|
        0 <= n < nodes.len() && 0 <= k < nodes[n].children@.len() ==> n < #[trigger] nodes[n].children@[k] < nodes.len()
}

/// Whether the nodes of rank zero or above make a tree with the root among them: each has its children in the
/// list, and they rank below it. Nodes below zero are not reached, and nothing is asked of them.
pub open spec fn tree_ranked(nodes: Seq<GrTreeNode>, rank: Seq<int>) -> bool {
    &&& rank.len() == nodes.len()
    &&& nodes.len() > 0 ==> rank[0] >= 0
    &&& forall|n: int, k: int|
        0 <= n < nodes.len() && rank[n] >= 0 && 0 <= k < nodes[n].children@.len() ==> (#[trigger] nodes[n].children@[k]) < nodes.len() && 0
            <= rank[nodes[n].children@[k] as int] < rank[n]
}

/// Whether no node that is reached from the root is below itself.
pub open spec fn can_walk(nodes: Seq<GrTreeNode>) -> bool {
    exists|rank: Seq<int>| #[trigger] tree_ranked(nodes, rank)
}

/// A tree whose children stand after their parents can be walked.
pub proof fn an_ordered_tree_can_be_walked(nodes: Seq<GrTreeNode>)
    requires
        is_ordered(nodes),
    ensures
        can_walk(nodes),
{
    assert(tree_ranked(nodes, Seq::new(nodes.len(), |n: int| nodes.len() - n)));
}

/// A node and all below it, given how the nodes rank: the node, then each child's in order.
pub open spec fn walk_from(nodes: Seq<GrTreeNode>, rank: Seq<int>, n: int) -> Seq<int>
    decreases rank[n], 1int, 0int,
{
    if 0 <= n < nodes.len() { seq![n] + walk_children(nodes, rank, n, 0) } else { Seq::empty() }
}

/// All below the children of a node from the `k`-th on.
pub open spec fn walk_children(nodes: Seq<GrTreeNode>, rank: Seq<int>, n: int, k: int) -> Seq<int>
    decreases rank[n], 0int, nodes[n].children@.len() - k,
{
    if 0 <= n < nodes.len() && 0 <= k < nodes[n].children@.len() && 0 <= rank[nodes[n].children@[k] as int] < rank[n] {
        walk_from(nodes, rank, nodes[n].children@[k] as int) + walk_children(nodes, rank, n, k + 1)
    } else {
        Seq::empty()
    }
}

/// The places from a list of machine integers.
pub open spec fn places(s: Seq<usize>) -> Seq<int> {
    s.map_values(|v: usize| v as int)
}

/// What a stack of nodes still has to give, from its top down.
spec fn left_of(nodes: Seq<GrTreeNode>, rank: Seq<int>, stack: Seq<usize>) -> Seq<int>
    decreases stack.len(),
{
    if stack.len() == 0 { Seq::empty() } else { walk_from(nodes, rank, stack.last() as int) + left_of(nodes, rank, stack.drop_last()) }
}

/// The pairs of a node and each of its children.
pub open spec fn pairs_of(nodes: Seq<GrTreeNode>, n: int) -> Seq<(int, int)> {
    nodes[n].children@.map_values(|c: usize| (n, c as int))
}

/// Whether a pair is that of node `n` and its `j`-th child.
pub open spec fn is_pair(nodes: Seq<GrTreeNode>, e: (int, int), n: int, j: int) -> bool {
    0 <= n < nodes.len() && 0 <= j < nodes[n].children@.len() && e == (n, nodes[n].children@[j] as int)
}

/// The pairs of the first `k` nodes of a walk.
pub open spec fn pairs_along(nodes: Seq<GrTreeNode>, walk: Seq<int>, k: int) -> Seq<(int, int)>
    decreases k,
{
    if k <= 0 { Seq::empty() } else { pairs_along(nodes, walk, k - 1) + pairs_of(nodes, walk[k - 1]) }
}

/// A pair of machine integers as places.
pub open spec fn as_pairs(s: Seq<(usize, usize)>) -> Seq<(int, int)> {
    s.map_values(|e: (usize, usize)| (e.0 as int, e.1 as int))
}

proof fn lemma_walk(nodes: Seq<GrTreeNode>, rank: Seq<int>, n: int, k: int)
    requires
        tree_ranked(nodes, rank),
        0 <= n < nodes.len(),
        rank[n] >= 0,
        k >= 0,
    ensures
        forall|i: int| 0 <= i < walk_children(nodes, rank, n, k).len() ==> 0 <= #[trigger] walk_children(nodes, rank, n, k)[i] < nodes.len() && rank[walk_children(
            nodes,
            rank,
            n,
            k,
        )[i]] >= 0,
        k == 0 ==> forall|i: int| 0 <= i < walk_from(nodes, rank, n).len() ==> 0 <= #[trigger] walk_from(nodes, rank, n)[i] < nodes.len() && rank[walk_from(nodes, rank, n)[i]] >= 0,
    decreases rank[n], nodes[n].children@.len() - k,
{
    if k < nodes[n].children@.len() {
        let c = nodes[n].children@[k] as int;
        lemma_walk(nodes, rank, c, 0);
        lemma_walk(nodes, rank, n, k + 1);
        let (a, b) = (walk_from(nodes, rank, c), walk_children(nodes, rank, n, k + 1));
        let all = walk_children(nodes, rank, n, k);
        assert forall|i: int| 0 <= i < all.len() implies 0 <= #[trigger] all[i] < nodes.len() && rank[all[i]] >= 0 by {
            assert((a + b)[i] == (if i < a.len() { a[i] } else { b[i - a.len()] }));
        }
    }
    if k == 0 {
        let b = walk_children(nodes, rank, n, 0);
        let all = walk_from(nodes, rank, n);
        assert forall|i: int| 0 <= i < all.len() implies 0 <= #[trigger] all[i] < nodes.len() && rank[all[i]] >= 0 by {
            assert((seq![n] + b)[i] == (if i < 1 { n } else { b[i - 1] }));
        }
    }
}

proof fn lemma_same_walk(nodes: Seq<GrTreeNode>, r: Seq<int>, q: Seq<int>, n: int, k: int)
    requires
        tree_ranked(nodes, r),
        tree_ranked(nodes, q),
        0 <= n < nodes.len(),
        r[n] >= 0,
        q[n] >= 0,
        k >= 0,
    ensures
        walk_children(nodes, r, n, k) == walk_children(nodes, q, n, k),
        k == 0 ==> walk_from(nodes, r, n) == walk_from(nodes, q, n),
    decreases r[n], nodes[n].children@.len() - k,
{
    if k < nodes[n].children@.len() {
        let c = nodes[n].children@[k] as int;
        lemma_same_walk(nodes, r, q, c, 0);
        lemma_same_walk(nodes, r, q, n, k + 1);
    }
}

/// A tree is walked in one order, however its nodes are ranked.
pub proof fn a_walk_does_not_depend_on_the_ranks(t: GrTree, rank: Seq<int>)
    requires
        tree_ranked(t.nodes@, rank),
    ensures
        t.walk() == walk_from(t.nodes@, rank, 0),
{
    if t.nodes@.len() > 0 {
        let chosen = choose|rank: Seq<int>| #[trigger] tree_ranked(t.nodes@, rank);
        lemma_same_walk(t.nodes@, chosen, rank, 0, 0);
    }
}

impl GrTree {
    /// The nodes in walking order: a node, then each child's in order. Nothing for an empty tree.
    pub open spec fn walk(&self) -> Seq<int> {
        walk_from(self.nodes@, choose|rank: Seq<int>| #[trigger] tree_ranked(self.nodes@, rank), 0)
    }

    /// The pairs of a node and a child, in walking order.
    pub open spec fn links(&self) -> Seq<(int, int)> {
        pairs_along(self.nodes@, self.walk(), self.walk().len() as int)
    }

    pub fn new() -> (t: GrTree)
        ensures
            t.nodes@ == Seq::<GrTreeNode>::empty(),
    {
        GrTree { nodes: Vec::new() }
    }

    /// Adds a node without children and gives its place.
    pub fn add(&mut self, layer: i32, p: Point) -> (n: usize)
        ensures
            n == old(self).nodes@.len(),
            final(self).nodes@.len() == old(self).nodes@.len() + 1,
            forall|k: int| 0 <= k < n ==> final(self).nodes@[k] == #[trigger] old(self).nodes@[k],
            final(self).nodes@[n as int].layer == layer,
            final(self).nodes@[n as int].p == p,
            final(self).nodes@[n as int].children@ == Seq::<usize>::empty(),
            is_ordered(old(self).nodes@) ==> is_ordered(final(self).nodes@),
    {
        let n: usize = self.nodes.len();
        self.nodes.push(GrTreeNode { layer, p, children: Vec::new() });
        n
    }

    /// The nodes in walking order: a node, then each child's in order.
    pub fn preorder(&self) -> (out: Vec<usize>)
        requires
            can_walk(self.nodes@),
        ensures
            places(out@) == self.walk(),
            forall|i: int| 0 <= i < out@.len() ==> #[trigger] out@[i] < self.nodes@.len(),
    {
        let mut out: Vec<usize> = Vec::new();
        if self.nodes.len() == 0 {
            assert(places(out@) =~= self.walk());
            return out;
        }
        let mut stack: Vec<usize> = Vec::new();
        stack.push(0);
        let ghost nodes = self.nodes@;
        let ghost rank = choose|rank: Seq<int>| #[trigger] tree_ranked(nodes, rank);
        proof {
            assert(stack@.drop_last() =~= Seq::empty());
            assert(left_of(nodes, rank, stack@) =~= walk_from(nodes, rank, 0) + left_of(nodes, rank, stack@.drop_last()));
            assert(places(out@) + left_of(nodes, rank, stack@) =~= self.walk());
        }
        while stack.len() > 0
            invariant
                nodes == self.nodes@,
                tree_ranked(nodes, rank),
                forall|i: int| 0 <= i < stack@.len() ==> #[trigger] stack@[i] < nodes.len() && rank[stack@[i] as int] >= 0,
                forall|i: int| 0 <= i < out@.len() ==> #[trigger] out@[i] < nodes.len(),
                places(out@) + left_of(nodes, rank, stack@) == self.walk(),
            decreases left_of(nodes, rank, stack@).len(),
        {
            let ghost stack0 = stack@;
            let ghost out0 = out@;
            let n: usize = match stack.pop() {
                Some(n) => n,
                None => 0,
            };
            assert(stack@ =~= stack0.drop_last());
            let ghost base = stack@;
            out.push(n);
            let total: usize = self.nodes[n].children.len();
            let mut k: usize = total;
            assert(walk_children(nodes, rank, n as int, k as int) =~= Seq::empty());
            while k > 0
                invariant
                    nodes == self.nodes@,
                    tree_ranked(nodes, rank),
                    n < nodes.len(),
                    rank[n as int] >= 0,
                    k <= total == nodes[n as int].children@.len(),
                    forall|i: int| 0 <= i < stack@.len() ==> #[trigger] stack@[i] < nodes.len() && rank[stack@[i] as int] >= 0,
                    left_of(nodes, rank, stack@) == walk_children(nodes, rank, n as int, k as int) + left_of(nodes, rank, base),
                decreases k,
            {
                k -= 1;
                let ghost s0 = stack@;
                let c: usize = self.nodes[n].children[k];
                assert(nodes[n as int].children@[k as int] < nodes.len() && 0 <= rank[c as int] < rank[n as int]);
                stack.push(c);
                proof {
                    assert(stack@.drop_last() =~= s0);
                    assert(left_of(nodes, rank, stack@) == walk_from(nodes, rank, c as int) + left_of(nodes, rank, s0));
                    assert(left_of(nodes, rank, stack@) =~= walk_children(nodes, rank, n as int, k as int) + left_of(nodes, rank, base));
                }
            }
            proof {
                assert(places(out@) =~= places(out0).push(n as int));
                assert(left_of(nodes, rank, stack0) == walk_from(nodes, rank, n as int) + left_of(nodes, rank, base));
                assert(places(out@) + left_of(nodes, rank, stack@) =~= places(out0) + left_of(nodes, rank, stack0));
            }
        }
        assert(left_of(nodes, rank, stack@) =~= Seq::empty());
        assert(places(out@) =~= self.walk());
        out
    }

    /// The pairs of a node and a child, in walking order.
    pub fn edges(&self) -> (out: Vec<(usize, usize)>)
        requires
            can_walk(self.nodes@),
        ensures
            as_pairs(out@) == self.links(),
            forall|i: int| 0 <= i < out@.len() ==> (#[trigger] out@[i]).0 < self.nodes@.len() && out@[i].1 < self.nodes@.len(),
    {
        let walk = self.preorder();
        let ghost nodes = self.nodes@;
        let ghost rank = choose|rank: Seq<int>| #[trigger] tree_ranked(nodes, rank);
        proof {
            if nodes.len() > 0 {
                lemma_walk(nodes, rank, 0, 0);
            }
            assert forall|i: int| 0 <= i < walk@.len() implies #[trigger] walk@[i] < nodes.len() && rank[walk@[i] as int] >= 0 by {
                assert(places(walk@)[i] == walk@[i]);
            }
        }
        let mut out: Vec<(usize, usize)> = Vec::new();
        let mut k: usize = 0;
        assert(as_pairs(out@) =~= pairs_along(nodes, self.walk(), 0));
        while k < walk.len()
            invariant
                nodes == self.nodes@,
                tree_ranked(nodes, rank),
                k <= walk@.len(),
                places(walk@) == self.walk(),
                forall|i: int| 0 <= i < walk@.len() ==> #[trigger] walk@[i] < nodes.len() && rank[walk@[i] as int] >= 0,
                as_pairs(out@) == pairs_along(nodes, self.walk(), k as int),
                forall|i: int| 0 <= i < out@.len() ==> (#[trigger] out@[i]).0 < nodes.len() && out@[i].1 < nodes.len(),
            decreases walk@.len() - k,
        {
            let n: usize = walk[k];
            let ghost out0 = out@;
            let mut j: usize = 0;
            assert(as_pairs(out@) =~= as_pairs(out0) + pairs_of(nodes, n as int).take(0));
            while j < self.nodes[n].children.len()
                invariant
                    nodes == self.nodes@,
                    tree_ranked(nodes, rank),
                    n < nodes.len(),
                    rank[n as int] >= 0,
                    j <= nodes[n as int].children@.len(),
                    as_pairs(out@) == as_pairs(out0) + pairs_of(nodes, n as int).take(j as int),
                    forall|i: int| 0 <= i < out@.len() ==> (#[trigger] out@[i]).0 < nodes.len() && out@[i].1 < nodes.len(),
                decreases nodes[n as int].children@.len() - j,
            {
                let c: usize = self.nodes[n].children[j];
                assert(nodes[n as int].children@[j as int] < nodes.len());
                let ghost o1 = out@;
                out.push((n, c));
                j += 1;
                assert(as_pairs(out@) =~= as_pairs(o1).push((n as int, c as int)));
                assert(as_pairs(out@) =~= as_pairs(out0) + pairs_of(nodes, n as int).take(j as int));
            }
            assert(pairs_of(nodes, n as int).take(j as int) =~= pairs_of(nodes, n as int));
            assert(self.walk()[k as int] == n) by {
                assert(places(walk@)[k as int] == n);
            }
            k += 1;
        }
        assert(k == self.walk().len()) by {
            assert(places(walk@).len() == walk@.len());
        }
        out
    }
}

/// Every node of a walk stands in the list, as does every child of one, and the walk starts at the root.
pub proof fn a_walk_stays_in_the_tree(t: GrTree)
    requires
        can_walk(t.nodes@),
    ensures
        forall|i: int| 0 <= i < t.walk().len() ==> 0 <= #[trigger] t.walk()[i] < t.nodes@.len(),
        forall|i: int, k: int| 0 <= i < t.walk().len() && 0 <= k < t.nodes@[t.walk()[i]].children@.len() ==> (#[trigger] t.nodes@[t.walk()[i]].children@[k]) < t.nodes@.len(),
        t.nodes@.len() == 0 ==> t.walk().len() == 0,
        t.nodes@.len() > 0 ==> t.walk().len() > 0 && t.walk()[0] == 0,
{
    let rank = choose|rank: Seq<int>| #[trigger] tree_ranked(t.nodes@, rank);
    if t.nodes@.len() > 0 {
        lemma_walk(t.nodes@, rank, 0, 0);
    }
}

// ---- each node once ----

/// How often a list holds a node.
pub open spec fn times(s: Seq<int>, m: int) -> nat
    decreases s.len(),
{
    if s.len() == 0 { 0 } else { times(s.drop_last(), m) + (if s.last() == m { 1nat } else { 0nat }) }
}

proof fn lemma_times_add(a: Seq<int>, b: Seq<int>, m: int)
    ensures
        times(a + b, m) == times(a, m) + times(b, m),
    decreases b.len(),
{
    if b.len() == 0 {
        assert(a + b =~= a);
    } else {
        assert((a + b).drop_last() =~= a + b.drop_last());
        lemma_times_add(a, b.drop_last(), m);
    }
}

/// A list holds what it holds at some place, and twice what it holds at two places.
proof fn lemma_times_at(s: Seq<int>, m: int)
    ensures
        times(s, m) > 0 <==> s.contains(m),
        forall|i: int, j: int| 0 <= i < j < s.len() && s[i] == m && s[j] == m ==> times(s, m) >= 2,
    decreases s.len(),
{
    if s.len() > 0 {
        let d = s.drop_last();
        lemma_times_at(d, m);
        if d.contains(m) {
            let i = choose|i: int| 0 <= i < d.len() && d[i] == m;
            assert(s[i] == m);
        }
        if s.contains(m) {
            let i = choose|i: int| 0 <= i < s.len() && s[i] == m;
            if i < d.len() {
                assert(d[i] == m);
            }
        }
        assert forall|i: int, j: int| 0 <= i < j < s.len() && s[i] == m && s[j] == m implies times(s, m) >= 2 by {
            assert(d[i] == m);
            if j < d.len() {
                assert(d[j] == m);
            }
        }
    }
}

/// Whether `m` is the `j`-th child of `p`, a node of the tree.
pub open spec fn is_child(nodes: Seq<GrTreeNode>, rank: Seq<int>, m: int, p: int, j: int) -> bool {
    0 <= p < nodes.len() && rank[p] >= 0 && 0 <= j < nodes[p].children@.len() && nodes[p].children@[j] == m
}

/// Whether the nodes make a tree: the root is no child, and any other node is a child once at most.
pub open spec fn has_one_parent(nodes: Seq<GrTreeNode>, rank: Seq<int>) -> bool {
    &&& forall|p: int, j: int| !#[trigger] is_child(nodes, rank, 0, p, j)
    &&& forall|m: int, p: int, j: int, q: int, k: int| #[trigger] is_child(nodes, rank, m, p, j) && #[trigger] is_child(nodes, rank, m, q, k) ==> p == q && j == k
}

/// What is below a node ranks below it.
proof fn lemma_ranks_below(nodes: Seq<GrTreeNode>, rank: Seq<int>, n: int, k: int)
    requires
        tree_ranked(nodes, rank),
        0 <= n < nodes.len(),
        rank[n] >= 0,
        k >= 0,
    ensures
        forall|m: int| #[trigger] times(walk_children(nodes, rank, n, k), m) > 0 ==> 0 <= m < nodes.len() && rank[m] < rank[n],
        times(walk_from(nodes, rank, n), n) == times(walk_children(nodes, rank, n, 0), n) + 1,
        forall|m: int| m != n ==> #[trigger] times(walk_from(nodes, rank, n), m) == times(walk_children(nodes, rank, n, 0), m),
    decreases rank[n], nodes[n].children@.len() - k,
{
    if k < nodes[n].children@.len() {
        let c = nodes[n].children@[k] as int;
        lemma_ranks_below(nodes, rank, c, 0);
        lemma_ranks_below(nodes, rank, n, k + 1);
        assert forall|m: int| #[trigger] times(walk_children(nodes, rank, n, k), m) > 0 implies 0 <= m < nodes.len() && rank[m] < rank[n] by {
            lemma_times_add(walk_from(nodes, rank, c), walk_children(nodes, rank, n, k + 1), m);
            if times(walk_from(nodes, rank, c), m) > 0 {
                if m != c {
                    assert(times(walk_children(nodes, rank, c, 0), m) > 0);
                }
            } else {
                assert(times(walk_children(nodes, rank, n, k + 1), m) > 0);
            }
        }
    }
    assert forall|m: int| times(walk_from(nodes, rank, n), m) == times(walk_children(nodes, rank, n, 0), m) + (if m == n { 1nat } else { 0nat }) by {
        lemma_times_add(seq![n], walk_children(nodes, rank, n, 0), m);
        assert(seq![n].drop_last() =~= Seq::<int>::empty());
        assert(times(Seq::<int>::empty(), m) == 0);
        assert(times(seq![n], m) == (if m == n { 1nat } else { 0nat }));
    }
}

/// A child is met as often as its parent, and a node that is no child only where the walk starts.
proof fn lemma_met_with_parent(nodes: Seq<GrTreeNode>, rank: Seq<int>, n: int, k: int, m: int, parent: Option<(int, int)>)
    requires
        tree_ranked(nodes, rank),
        0 <= n < nodes.len(),
        rank[n] >= 0,
        k >= 0,
        forall|q: int, i: int| #[trigger] is_child(nodes, rank, m, q, i) ==> parent == Some((q, i)),
        parent matches Some(p) ==> is_child(nodes, rank, m, p.0, p.1),
    ensures
        times(walk_children(nodes, rank, n, k), m) == (match parent {
            Some(p) => times(walk_children(nodes, rank, n, k), p.0) + (if n == p.0 && k <= p.1 { 1nat } else { 0nat }),
            None => 0nat,
        }),
        k == 0 && n != m ==> times(walk_from(nodes, rank, n), m) == (match parent {
            Some(p) => times(walk_from(nodes, rank, n), p.0),
            None => 0nat,
        }),
    decreases rank[n], nodes[n].children@.len() - k,
{
    if k < nodes[n].children@.len() {
        let c = nodes[n].children@[k] as int;
        assert(is_child(nodes, rank, c, n, k));
        let (a, b) = (walk_from(nodes, rank, c), walk_children(nodes, rank, n, k + 1));
        lemma_met_with_parent(nodes, rank, c, 0, m, parent);
        lemma_met_with_parent(nodes, rank, n, k + 1, m, parent);
        lemma_times_add(a, b, m);
        lemma_ranks_below(nodes, rank, c, 0);
        if let Some(p) = parent {
            lemma_times_add(a, b, p.0);
            if c == m {
                assert(p == (n, k));
                assert(rank[m] < rank[p.0]);
                assert(times(walk_children(nodes, rank, c, 0), m) == 0);
                assert(times(walk_children(nodes, rank, c, 0), p.0) == 0);
            }
        }
    }
    if k == 0 {
        lemma_ranks_below(nodes, rank, n, 0);
        if let Some(p) = parent {
            if n == p.0 {
                assert(times(walk_from(nodes, rank, n), n) == times(walk_children(nodes, rank, n, 0), n) + 1);
            }
        }
    }
}

/// The highest of the first `n` ranks, and zero at least.
spec fn highest(rank: Seq<int>, n: int) -> int
    decreases n,
{
    if n <= 0 {
        0
    } else if rank[n - 1] > highest(rank, n - 1) {
        rank[n - 1]
    } else {
        highest(rank, n - 1)
    }
}

proof fn lemma_highest(rank: Seq<int>, n: int)
    requires
        0 <= n <= rank.len(),
    ensures
        forall|i: int| 0 <= i < n ==> #[trigger] rank[i] <= highest(rank, n),
    decreases n,
{
    if n > 0 {
        lemma_highest(rank, n - 1);
    }
}

/// The parent of a node and its place there, where it has one.
spec fn parent_of(nodes: Seq<GrTreeNode>, rank: Seq<int>, m: int) -> Option<(int, int)> {
    if exists|p: int, j: int| #[trigger] is_child(nodes, rank, m, p, j) { Some(choose|p: int, j: int| #[trigger] is_child(nodes, rank, m, p, j)) } else { None }
}

proof fn lemma_met_once(nodes: Seq<GrTreeNode>, rank: Seq<int>, m: int)
    requires
        tree_ranked(nodes, rank),
        has_one_parent(nodes, rank),
        nodes.len() > 0,
        0 <= m < nodes.len(),
    ensures
        times(walk_from(nodes, rank, 0), m) <= 1,
        m == 0 ==> times(walk_from(nodes, rank, 0), m) == 1,
        m != 0 ==> times(walk_from(nodes, rank, 0), m) == (match parent_of(nodes, rank, m) {
            Some(p) => times(walk_from(nodes, rank, 0), p.0),
            None => 0nat,
        }),
    decreases highest(rank, rank.len() as int) - rank[m],
{
    lemma_highest(rank, rank.len() as int);
    lemma_ranks_below(nodes, rank, 0, 0);
    let parent = parent_of(nodes, rank, m);
    assert forall|q: int, i: int| #[trigger] is_child(nodes, rank, m, q, i) implies parent == Some((q, i)) by {
        let p = parent->0;
        assert(is_child(nodes, rank, m, p.0, p.1));
    }
    if m != 0 {
        lemma_met_with_parent(nodes, rank, 0, 0, m, parent);
        if let Some(p) = parent {
            assert(is_child(nodes, rank, m, p.0, p.1));
            assert(rank[m] < rank[p.0]);
            lemma_met_once(nodes, rank, p.0);
        }
    } else {
        assert(times(walk_children(nodes, rank, 0, 0), 0) == 0);
    }
}

/// A walk over a tree starts at the root, holds no node twice, holds the children of every node it holds, and
/// holds no other: each node but the root is the child of one that it holds.
pub proof fn a_tree_is_walked_once(t: GrTree, rank: Seq<int>)
    requires
        tree_ranked(t.nodes@, rank),
        has_one_parent(t.nodes@, rank),
    ensures
        t.nodes@.len() == 0 ==> t.walk().len() == 0,
        t.nodes@.len() > 0 ==> t.walk().len() > 0 && t.walk()[0] == 0,
        t.walk().no_duplicates(),
        forall|p: int, j: int| t.walk().contains(p) && 0 <= j < t.nodes@[p].children@.len() ==> t.walk().contains(#[trigger] t.nodes@[p].children@[j] as int),
        forall|m: int| #[trigger] t.walk().contains(m) && m != 0 ==> exists|p: int, j: int| #[trigger] is_child(t.nodes@, rank, m, p, j) && t.walk().contains(p),
{
    let nodes = t.nodes@;
    a_walk_does_not_depend_on_the_ranks(t, rank);
    a_walk_stays_in_the_tree(t);
    let w = t.walk();
    if nodes.len() > 0 {
        lemma_walk(nodes, rank, 0, 0);
        assert forall|i: int, j: int| 0 <= i < w.len() && 0 <= j < w.len() && i != j implies w[i] != w[j] by {
            lemma_met_once(nodes, rank, w[i]);
            lemma_times_at(w, w[i]);
            if w[i] == w[j] {
                if i < j {
                    assert(times(w, w[i]) >= 2);
                } else {
                    assert(times(w, w[j]) >= 2);
                }
            }
        }
        assert forall|p: int, j: int| w.contains(p) && 0 <= j < nodes[p].children@.len() implies w.contains(#[trigger] nodes[p].children@[j] as int) by {
            let i = choose|i: int| 0 <= i < w.len() && w[i] == p;
            assert(rank[w[i]] >= 0);
            let m = nodes[p].children@[j] as int;
            assert(is_child(nodes, rank, m, p, j));
            let q = parent_of(nodes, rank, m)->0;
            assert(is_child(nodes, rank, m, q.0, q.1));
            lemma_met_once(nodes, rank, m);
            lemma_times_at(w, m);
            lemma_times_at(w, p);
        }
        assert forall|m: int| #[trigger] w.contains(m) && m != 0 implies exists|p: int, j: int| #[trigger] is_child(nodes, rank, m, p, j) && w.contains(p) by {
            let i = choose|i: int| 0 <= i < w.len() && w[i] == m;
            assert(0 <= w[i] < nodes.len());
            lemma_met_once(nodes, rank, m);
            lemma_times_at(w, m);
            let p = parent_of(nodes, rank, m)->0;
            assert(is_child(nodes, rank, m, p.0, p.1));
            lemma_times_at(w, p.0);
        }
    }
}

} // verus!
