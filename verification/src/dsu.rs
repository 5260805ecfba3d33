//! A disjoint-set forest, and the links whose partition it keeps.
use vstd::prelude::*;

verus! {

/// Whether a link joins two things, either way round.
pub open spec fn touch(links: Set<(int, int)>, a: int, b: int) -> bool {
    links.contains((a, b)) || links.contains((b, a))
}

/// Whether a list is a chain of linked things from `x` to `y`.
pub open spec fn is_chain(links: Set<(int, int)>, w: Seq<int>, x: int, y: int) -> bool {
    &&& w.len() > 0
    &&& w[0] == x
    &&& w.last() == y
    &&& forall|i: int| 0 <= i < w.len() - 1 ==> touch(links, #[trigger] w[i], w[i + 1])
}

/// Whether a chain of links leads from `x` to `y`.
pub open spec fn linked(links: Set<(int, int)>, x: int, y: int) -> bool {
    exists|w: Seq<int>| is_chain(links, w, x, y)
}

/// Being linked is reflexive, symmetric and transitive.
pub proof fn linked_is_an_equivalence(links: Set<(int, int)>, x: int, y: int, z: int)
    ensures
        linked(links, x, x),
        linked(links, x, y) ==> linked(links, y, x),
        linked(links, x, y) && linked(links, y, z) ==> linked(links, x, z),
{
    assert(is_chain(links, seq![x], x, x));
    if linked(links, x, y) {
        let w = choose|w: Seq<int>| is_chain(links, w, x, y);
        let r = Seq::new(w.len(), |i: int| w[w.len() - 1 - i]);
        assert forall|i: int| 0 <= i < r.len() - 1 implies touch(links, #[trigger] r[i], r[i + 1]) by {
            let j = w.len() - 2 - i;
            assert(touch(links, w[j], w[j + 1]));
        }
        assert(is_chain(links, r, y, x));
        if linked(links, y, z) {
            let v = choose|v: Seq<int>| is_chain(links, v, y, z);
            let c = w + v.drop_first();
            assert forall|i: int| 0 <= i < c.len() - 1 implies touch(links, #[trigger] c[i], c[i + 1]) by {
                if i < w.len() - 1 {
                    assert(touch(links, w[i], w[i + 1]));
                } else {
                    let j = i - (w.len() - 1);
                    assert(touch(links, v[j], v[j + 1]));
                }
            }
            assert(is_chain(links, c, x, z));
        }
    }
}

pub proof fn lemma_linked_step(links: Set<(int, int)>, x: int, y: int)
    requires
        touch(links, x, y),
    ensures
        linked(links, x, y),
{
    assert(is_chain(links, seq![x, y], x, y));
}

proof fn lemma_linked_more(links: Set<(int, int)>, more: Set<(int, int)>, x: int, y: int)
    requires
        links.subset_of(more),
        linked(links, x, y),
    ensures
        linked(more, x, y),
{
    let w = choose|w: Seq<int>| is_chain(links, w, x, y);
    assert forall|i: int| 0 <= i < w.len() - 1 implies touch(more, #[trigger] w[i], w[i + 1]) by {
        assert(touch(links, w[i], w[i + 1]));
    }
    assert(is_chain(more, w, x, y));
}

/// Whether a chain leads from `x` to `y`, through a further link between `a` and `b` where needed.
pub open spec fn linked_through(links: Set<(int, int)>, a: int, b: int, x: int, y: int) -> bool {
    ||| linked(links, x, y)
    ||| linked(links, x, a) && linked(links, b, y)
    ||| linked(links, x, b) && linked(links, a, y)
}

proof fn lemma_chain_through(links: Set<(int, int)>, a: int, b: int, w: Seq<int>, x: int, y: int)
    requires
        is_chain(links.insert((a, b)), w, x, y),
    ensures
        linked_through(links, a, b, x, y),
    decreases w.len(),
{
    let more = links.insert((a, b));
    if w.len() == 1 {
        linked_is_an_equivalence(links, x, x, x);
    } else {
        let v = w.drop_last();
        let p = v.last();
        assert(p == w[w.len() - 2]);
        assert forall|i: int| 0 <= i < v.len() - 1 implies touch(more, #[trigger] v[i], v[i + 1]) by {
            assert(touch(more, w[i], w[i + 1]));
        }
        lemma_chain_through(links, a, b, v, x, p);
        assert(touch(more, w[w.len() - 2], w[w.len() - 2 + 1]));
        linked_is_an_equivalence(links, a, a, a);
        linked_is_an_equivalence(links, b, b, b);
        if touch(links, p, y) {
            lemma_linked_step(links, p, y);
            linked_is_an_equivalence(links, x, p, y);
            linked_is_an_equivalence(links, a, p, y);
            linked_is_an_equivalence(links, b, p, y);
        } else {
            linked_is_an_equivalence(links, x, p, y);
        }
    }
}

/// A further link between `a` and `b` joins what was linked to one with what was linked to the other.
pub proof fn a_link_joins_two_pieces(links: Set<(int, int)>, a: int, b: int, x: int, y: int)
    ensures
        linked(links.insert((a, b)), x, y) <==> linked_through(links, a, b, x, y),
{
    let more = links.insert((a, b));
    if linked(more, x, y) {
        let w = choose|w: Seq<int>| is_chain(more, w, x, y);
        lemma_chain_through(links, a, b, w, x, y);
    }
    if linked_through(links, a, b, x, y) {
        lemma_linked_step(more, a, b);
        lemma_linked_step(more, b, a);
        if linked(links, x, y) {
            lemma_linked_more(links, more, x, y);
        } else if linked(links, x, a) && linked(links, b, y) {
            lemma_linked_more(links, more, x, a);
            lemma_linked_more(links, more, b, y);
            linked_is_an_equivalence(more, x, a, b);
            linked_is_an_equivalence(more, x, b, y);
        } else {
            lemma_linked_more(links, more, x, b);
            lemma_linked_more(links, more, a, y);
            linked_is_an_equivalence(more, x, b, a);
            linked_is_an_equivalence(more, x, a, y);
        }
    }
}

/// Whether each thing's parent is less deep.
pub open spec fn forest(parent: Seq<usize>, depth: Seq<nat>) -> bool {
    &&& parent.len() == depth.len()
    &&& forall|x: int| 0 <= x < parent.len() ==> (#[trigger] parent[x]) < parent.len() && (parent[x] != x ==> depth[parent[x] as int] < depth[x])
}

/// The root above a thing.
pub open spec fn root(parent: Seq<usize>, depth: Seq<nat>, x: int) -> int
    decreases depth[x],
{
    if parent[x] == x || depth[parent[x] as int] >= depth[x] {
        x
    } else {
        root(parent, depth, parent[x] as int)
    }
}

proof fn lemma_root(parent: Seq<usize>, depth: Seq<nat>, x: int)
    requires
        forest(parent, depth),
        0 <= x < parent.len(),
    ensures
        0 <= root(parent, depth, x) < parent.len(),
        parent[root(parent, depth, x)] == root(parent, depth, x),
        root(parent, depth, root(parent, depth, x)) == root(parent, depth, x),
    decreases depth[x],
{
    if parent[x] != x {
        lemma_root(parent, depth, parent[x] as int);
    }
}

proof fn lemma_halved(parent: Seq<usize>, depth: Seq<nat>, x: int, y: int)
    requires
        forest(parent, depth),
        0 <= x < parent.len(),
        0 <= y < parent.len(),
        parent[x] != x,
    ensures
        forest(parent.update(x, parent[parent[x] as int]), depth),
        root(parent.update(x, parent[parent[x] as int]), depth, y) == root(parent, depth, y),
    decreases depth[y],
{
    let q = parent[x] as int;
    let p2 = parent.update(x, parent[q]);
    assert(depth[q] < depth[x]);
    assert(parent[q] != q ==> depth[parent[q] as int] < depth[q]);
    assert forall|z: int| 0 <= z < p2.len() implies (#[trigger] p2[z]) < p2.len() && (p2[z] != z ==> depth[p2[z] as int] < depth[z]) by {
        assert(parent[z] < parent.len());
    }
    if y == x {
        lemma_halved(parent, depth, x, parent[q] as int);
        assert(root(parent, depth, x) == root(parent, depth, q));
        assert(root(parent, depth, q) == root(parent, depth, parent[q] as int));
        assert(root(p2, depth, x) == root(p2, depth, parent[q] as int));
    } else if parent[y] != y {
        lemma_halved(parent, depth, x, parent[y] as int);
    }
}

proof fn lemma_hung(parent: Seq<usize>, depth: Seq<nat>, ra: int, rb: int, y: int)
    requires
        forest(parent, depth),
        0 <= ra < parent.len(),
        0 <= rb < parent.len(),
        parent[ra] == ra,
        parent[rb] == rb,
        ra != rb,
        0 <= y < parent.len(),
    ensures
        forest(parent.update(ra, rb as usize), deepened(parent, depth, ra, rb)),
        root(parent.update(ra, rb as usize), deepened(parent, depth, ra, rb), y) == (if root(parent, depth, y) == ra { rb } else {
            root(parent, depth, y)
        }),
    decreases depth[y],
{
    let p2 = parent.update(ra, rb as usize);
    let d2 = deepened(parent, depth, ra, rb);
    assert forall|z: int| 0 <= z < p2.len() implies (#[trigger] p2[z]) < p2.len() && (p2[z] != z ==> d2[p2[z] as int] < d2[z]) by {
        assert(parent[z] < parent.len());
        if z != ra && parent[z] != z {
            assert(root(parent, depth, z) == root(parent, depth, parent[z] as int));
        }
    }
    if y == ra {
        assert(root(p2, d2, rb) == rb);
        assert(d2[rb] < d2[ra]);
    } else if parent[y] != y {
        lemma_hung(parent, depth, ra, rb, parent[y] as int);
    }
}

/// The depths once the tree of `ra` hangs below `rb`.
spec fn deepened(parent: Seq<usize>, depth: Seq<nat>, ra: int, rb: int) -> Seq<nat> {
    Seq::new(depth.len(), |x: int| if root(parent, depth, x) == ra { (depth[x] + depth[rb] + 1) as nat } else { depth[x] })
}

/// A disjoint-set forest; only its partition is ever read.
pub struct Dsu {
    parent: Vec<usize>,
    depth: Ghost<Seq<nat>>,
}

impl Dsu {
    pub closed spec fn wf(&self) -> bool {
        forest(self.parent@, self.depth@)
    }

    pub closed spec fn size(&self) -> int {
        self.parent@.len() as int
    }

    /// The thing that stands for the set of `x`.
    pub closed spec fn chief(&self, x: int) -> int {
        root(self.parent@, self.depth@, x)
    }

    /// Whether the partition is that of the links.
    pub open spec fn keeps(&self, links: Set<(int, int)>) -> bool {
        &&& self.wf()
        &&& forall|x: int, y: int| 0 <= x < self.size() && 0 <= y < self.size() ==> (#[trigger] self.chief(x) == #[trigger] self.chief(y) <==> linked(links, x, y))
    }

    /// Everything in a set of its own.
    pub fn new(n: usize) -> (d: Self)
        ensures
            d.size() == n,
            d.keeps(Set::empty()),
    {
        let mut parent: Vec<usize> = Vec::new();
        let mut k: usize = 0;
        while k < n
            invariant
                k <= n,
                parent@.len() == k,
                forall|x: int| 0 <= x < k ==> #[trigger] parent@[x] == x,
            decreases n - k,
        {
            parent.push(k);
            k += 1;
        }
        let d = Dsu { parent, depth: Ghost(Seq::new(n as nat, |x: int| 0nat)) };
        proof {
            assert forall|x: int, y: int| 0 <= x < d.size() && 0 <= y < d.size() implies (#[trigger] d.chief(x) == #[trigger] d.chief(y) <==> linked(Set::empty(), x, y)) by {
                if linked(Set::empty(), x, y) {
                    let w = choose|w: Seq<int>| is_chain(Set::empty(), w, x, y);
                    if w.len() > 1 {
                        assert(touch(Set::empty(), w[0int], w[0int + 1]));
                    }
                }
                linked_is_an_equivalence(Set::empty(), x, x, x);
            }
        }
        d
    }

    /// The thing that stands for the set of `x`.
    pub fn find(&mut self, x: usize) -> (r: usize)
        requires
            old(self).wf(),
            x < old(self).size(),
        ensures
            final(self).wf(),
            final(self).size() == old(self).size(),
            forall|y: int| 0 <= y < old(self).size() ==> #[trigger] final(self).chief(y) == old(self).chief(y),
            r == old(self).chief(x as int),
            r < old(self).size(),
            old(self).chief(r as int) == r,
    {
        let ghost d = self.depth@;
        let mut x: usize = x;
        let ghost x0 = x as int;
        let ghost p0 = self.parent@;
        while self.parent[x] != x
            invariant
                forest(p0, d),
                self.depth@ == d,
                forest(self.parent@, d),
                self.parent@.len() == p0.len(),
                x < p0.len(),
                0 <= x0 < p0.len(),
                forall|y: int| 0 <= y < p0.len() ==> #[trigger] root(self.parent@, d, y) == root(p0, d, y),
                root(p0, d, x as int) == root(p0, d, x0),
            decreases d[x as int],
        {
            let ghost p1 = self.parent@;
            let up: usize = self.parent[x];
            let over: usize = self.parent[up];
            self.parent[x] = over;
            proof {
                assert forall|y: int| 0 <= y < p0.len() implies #[trigger] root(self.parent@, d, y) == root(p0, d, y) by {
                    lemma_halved(p1, d, x as int, y);
                    assert(root(p1, d, y) == root(p0, d, y));
                }
                lemma_halved(p1, d, x as int, x as int);
                assert(root(p1, d, x as int) == root(p1, d, over as int)) by {
                    assert(root(p1, d, up as int) == root(p1, d, over as int));
                }
                assert(root(p1, d, over as int) == root(p0, d, over as int));
            }
            x = over;
        }
        proof {
            assert(root(self.parent@, d, x as int) == x);
            lemma_root(p0, d, x0);
        }
        x
    }

    /// Joins the sets of `a` and `b`.
    pub fn union(&mut self, a: usize, b: usize, Ghost(links): Ghost<Set<(int, int)>>)
        requires
            old(self).keeps(links),
            a < old(self).size(),
            b < old(self).size(),
        ensures
            final(self).size() == old(self).size(),
            final(self).keeps(links.insert((a as int, b as int))),
    {
        let ghost s0 = *self;
        let ra: usize = self.find(a);
        let ghost s1 = *self;
        let rb: usize = self.find(b);
        let ghost s2 = *self;
        assert(forall|y: int| 0 <= y < s0.size() ==> #[trigger] s2.chief(y) == s0.chief(y)) by {
            assert(forall|y: int| 0 <= y < s0.size() ==> #[trigger] s2.chief(y) == s1.chief(y));
        }
        proof {
            assert(s2.chief(a as int) == ra && s2.chief(b as int) == rb);
            lemma_root(self.parent@, self.depth@, ra as int);
            lemma_root(self.parent@, self.depth@, rb as int);
            lemma_root(self.parent@, self.depth@, a as int);
            lemma_root(self.parent@, self.depth@, b as int);
        }
        if ra != rb {
            let ghost (p, d) = (self.parent@, self.depth@);
            self.parent[ra] = rb;
            proof {
                self.depth@ = deepened(p, d, ra as int, rb as int);
                lemma_hung(p, d, ra as int, rb as int, 0);
                assert forall|y: int| 0 <= y < s0.size() implies #[trigger] self.chief(y) == (if s0.chief(y) == ra { rb as int } else { s0.chief(y) }) by {
                    lemma_hung(p, d, ra as int, rb as int, y);
                    assert(s2.chief(y) == s0.chief(y));
                }
            }
        }
        proof {
            assert forall|x: int, y: int| 0 <= x < self.size() && 0 <= y < self.size() implies (#[trigger] self.chief(x) == #[trigger] self.chief(y) <==> linked(links.insert((a as int, b as int)), x, y)) by {
                a_link_joins_two_pieces(links, a as int, b as int, x, y);
                assert(s0.chief(x) == s0.chief(y) <==> linked(links, x, y));
                assert(s0.chief(x) == s0.chief(a as int) <==> linked(links, x, a as int));
                assert(s0.chief(x) == s0.chief(b as int) <==> linked(links, x, b as int));
                assert(s0.chief(a as int) == s0.chief(y) <==> linked(links, a as int, y));
                assert(s0.chief(b as int) == s0.chief(y) <==> linked(links, b as int, y));
                assert(s2.chief(x) == s0.chief(x));
                assert(s2.chief(y) == s0.chief(y));
            }
        }
    }
}

} // verus!
