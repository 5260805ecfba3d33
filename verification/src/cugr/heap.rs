//! A heap of places whose order of removal is fixed even among equals, by the moves that it makes: an
//! added place is sifted up, and a removal drives the hole down to a leaf through the higher child, drops
//! the last place in and sifts it up.

use vstd::prelude::*;

verus! {

/// How places rank.
pub trait HeapOrder {
    /// Whether a place can be ranked.
    spec fn knows(&self, a: usize) -> bool;

    /// Whether the first ranks below the second.
    spec fn order(&self) -> spec_fn(usize, usize) -> bool;

    fn is_below(&self, a: usize, b: usize) -> (r: bool)
        requires
            self.knows(a),
            self.knows(b),
        ensures
            r == self.order()(a, b),
    ;
}

/// A heap of places. The highest stands first.
#[derive(Debug)]
pub struct LibcxxHeap {
    pub v: Vec<usize>,
}

/// Whether all places of a list can be ranked.
pub open spec fn all_known<O: HeapOrder>(o: O, v: Seq<usize>) -> bool {
    forall|i: int| 0 <= i < v.len() ==> o.knows(#[trigger] v[i])
}

/// A list with two entries exchanged.
pub open spec fn swapped(v: Seq<usize>, i: int, j: int) -> Seq<usize> {
    v.update(i, v[j]).update(j, v[i])
}

/// The place above in the heap.
pub open spec fn parent(i: int) -> int {
    (i - 1) / 2
}

/// A heap after the entry at `i` moves up past every parent that ranks below it.
pub open spec fn sifted(o: spec_fn(usize, usize) -> bool, v: Seq<usize>, i: int) -> Seq<usize>
    decreases i,
{
    if i <= 0 || !o(v[parent(i)], v[i]) { v } else { sifted(o, swapped(v, i, parent(i)), parent(i)) }
}

/// A heap with a place added.
pub open spec fn pushed(o: spec_fn(usize, usize) -> bool, v: Seq<usize>, x: usize) -> Seq<usize> {
    sifted(o, v.push(x), v.len() as int)
}

/// The child that the hole at `i` goes to: the left, or the right where the left ranks strictly below.
pub open spec fn higher_child(o: spec_fn(usize, usize) -> bool, v: Seq<usize>, i: int) -> int {
    if 2 * i + 2 < v.len() && o(v[2 * i + 1], v[2 * i + 2]) { 2 * i + 2 } else { 2 * i + 1 }
}

/// A heap after the entry at `i` sinks to a leaf through the higher child, and where it ends.
pub open spec fn sunk(o: spec_fn(usize, usize) -> bool, v: Seq<usize>, i: int) -> (Seq<usize>, int)
    decreases v.len() - i,
{
    if i < 0 || 2 * i + 1 >= v.len() {
        (v, i)
    } else {
        let c = higher_child(o, v, i);
        sunk(o, swapped(v, i, c), c)
    }
}

/// A heap without its first place.
pub open spec fn popped(o: spec_fn(usize, usize) -> bool, v: Seq<usize>) -> Seq<usize> {
    if v.len() <= 1 {
        Seq::empty()
    } else {
        let (w, h) = sunk(o, v, 0);
        let last = v.len() - 1;
        if h == last { w.drop_last() } else { sifted(o, swapped(w, h, last).drop_last(), h) }
    }
}

proof fn lemma_sunk_range(o: spec_fn(usize, usize) -> bool, v: Seq<usize>, i: int)
    requires
        0 <= i < v.len(),
    ensures
        sunk(o, v, i).0.len() == v.len(),
        i <= sunk(o, v, i).1 < v.len(),
        2 * sunk(o, v, i).1 + 1 >= v.len(),
    decreases v.len() - i,
{
    if 2 * i + 1 < v.len() {
        let c = higher_child(o, v, i);
        lemma_sunk_range(o, swapped(v, i, c), c);
    }
}

impl LibcxxHeap {
    pub fn new() -> (h: LibcxxHeap)
        ensures
            h.v@ == Seq::<usize>::empty(),
    {
        LibcxxHeap { v: Vec::new() }
    }

    fn swap(&mut self, i: usize, j: usize)
        requires
            i < old(self).v@.len(),
            j < old(self).v@.len(),
        ensures
            final(self).v@ == swapped(old(self).v@, i as int, j as int),
    {
        let (a, b) = (self.v[i], self.v[j]);
        self.v.set(i, b);
        self.v.set(j, a);
    }

    fn sift_up<O: HeapOrder>(&mut self, start: usize, o: &O)
        requires
            start < old(self).v@.len(),
            all_known(*o, old(self).v@),
        ensures
            final(self).v@ == sifted(o.order(), old(self).v@, start as int),
            all_known(*o, final(self).v@),
            final(self).v@.len() == old(self).v@.len(),
    {
        let ghost goal = sifted(o.order(), self.v@, start as int);
        let mut i: usize = start;
        while i > 0
            invariant
                i < self.v@.len() == old(self).v@.len(),
                all_known(*o, self.v@),
                goal == sifted(o.order(), old(self).v@, start as int),
                sifted(o.order(), self.v@, i as int) == goal,
            decreases i,
        {
            let p: usize = (i - 1) / 2;
            assert(p == parent(i as int));
            assert(o.knows(self.v@[p as int]) && o.knows(self.v@[i as int]));
            if !o.is_below(self.v[p], self.v[i]) {
                return;
            }
            self.swap(i, p);
            i = p;
        }
    }

    /// Adds a place.
    pub fn push<O: HeapOrder>(&mut self, x: usize, o: &O)
        requires
            o.knows(x),
            all_known(*o, old(self).v@),
        ensures
            final(self).v@ == pushed(o.order(), old(self).v@, x),
            all_known(*o, final(self).v@),
    {
        let n: usize = self.v.len();
        self.v.push(x);
        self.sift_up(n, o);
    }

    /// The highest place.
    pub fn top(&self) -> (x: usize)
        requires
            self.v@.len() > 0,
        ensures
            x == self.v@[0],
    {
        self.v[0]
    }

    pub fn is_empty(&self) -> (r: bool)
        ensures
            r == (self.v@.len() == 0),
    {
        self.v.len() == 0
    }

    fn sink<O: HeapOrder>(&mut self, o: &O) -> (hole: usize)
        requires
            old(self).v@.len() > 0,
            all_known(*o, old(self).v@),
        ensures
            (final(self).v@, hole as int) == sunk(o.order(), old(self).v@, 0),
            all_known(*o, final(self).v@),
            final(self).v@.len() == old(self).v@.len(),
            hole < final(self).v@.len(),
    {
        let ghost goal = sunk(o.order(), self.v@, 0);
        let n: usize = self.v.len();
        let mut hole: usize = 0;
        while hole < n / 2
            invariant
                n == self.v@.len() == old(self).v@.len(),
                hole < n,
                all_known(*o, self.v@),
                goal == sunk(o.order(), old(self).v@, 0),
                sunk(o.order(), self.v@, hole as int) == goal,
            decreases n - hole,
        {
            let mut child: usize = 2 * hole + 1;
            assert(o.knows(self.v@[child as int]));
            if child + 1 < n {
                assert(o.knows(self.v@[child + 1]));
                if o.is_below(self.v[child], self.v[child + 1]) {
                    child = child + 1;
                }
            }
            assert(child == higher_child(o.order(), self.v@, hole as int));
            self.swap(hole, child);
            hole = child;
        }
        hole
    }

    /// Removes the highest place.
    pub fn pop<O: HeapOrder>(&mut self, o: &O)
        requires
            all_known(*o, old(self).v@),
        ensures
            final(self).v@ == popped(o.order(), old(self).v@),
            all_known(*o, final(self).v@),
    {
        let n: usize = self.v.len();
        if n <= 1 {
            self.v = Vec::new();
            assert(self.v@ =~= popped(o.order(), old(self).v@));
            return;
        }
        let hole: usize = self.sink(o);
        let last: usize = n - 1;
        if hole != last {
            self.swap(hole, last);
        }
        let ghost full = self.v@;
        let _ = self.v.pop();
        assert(self.v@ =~= full.drop_last());
        if hole != last {
            self.sift_up(hole, o);
        }
    }
}

// ---- what the moves keep ----

/// Whether an order is a ranking: none below itself, and both being below and not being below carry over.
pub open spec fn is_ranking(o: spec_fn(usize, usize) -> bool) -> bool {
    &&& forall|a: usize| !#[trigger] o(a, a)
    &&& forall|a: usize, b: usize, c: usize| #[trigger] o(a, b) && #[trigger] o(b, c) ==> o(a, c)
    &&& forall|a: usize, b: usize, c: usize| !#[trigger] o(a, b) && !#[trigger] o(b, c) ==> !o(a, c)
}

/// Whether the entry at `i` may stand below its parent.
pub open spec fn holds_at(o: spec_fn(usize, usize) -> bool, v: Seq<usize>, i: int) -> bool {
    !o(v[parent(i)], v[i])
}

/// Whether no entry ranks above its parent.
pub open spec fn is_heap(o: spec_fn(usize, usize) -> bool, v: Seq<usize>) -> bool {
    forall|i: int| 1 <= i < v.len() ==> #[trigger] holds_at(o, v, i)
}

/// Whether a list is a heap but for the entry at `i`, whose children may also stand below its parent.
spec fn is_heap_but(o: spec_fn(usize, usize) -> bool, v: Seq<usize>, i: int) -> bool {
    &&& forall|j: int| 1 <= j < v.len() && j != i ==> #[trigger] holds_at(o, v, j)
    &&& forall|j: int| 1 <= j < v.len() && #[trigger] parent(j) == i && i > 0 ==> !o(v[parent(i)], v[j])
}

/// Whether a list is a heap but for what stands at `i`, whatever its children are to it.
spec fn has_hole(o: spec_fn(usize, usize) -> bool, v: Seq<usize>, i: int) -> bool {
    &&& forall|j: int| 1 <= j < v.len() && j != i && parent(j) != i ==> #[trigger] holds_at(o, v, j)
    &&& forall|j: int| 1 <= j < v.len() && #[trigger] parent(j) == i && i > 0 ==> !o(v[parent(i)], v[j])
}

proof fn lemma_sift(o: spec_fn(usize, usize) -> bool, v: Seq<usize>, i: int)
    requires
        is_ranking(o),
        0 <= i < v.len(),
        is_heap_but(o, v, i),
    ensures
        is_heap(o, sifted(o, v, i)),
        sifted(o, v, i).len() == v.len(),
    decreases i,
{
    if i > 0 {
        let p = parent(i);
        if !o(v[p], v[i]) {
            assert(holds_at(o, v, i));
        } else {
            let w = swapped(v, i, p);
            assert forall|j: int| 1 <= j < w.len() && j != p implies #[trigger] holds_at(o, w, j) by {
                if j == i {
                    assert(!o(v[i], v[p])) by {
                        assert(o(v[p], v[i]));
                        if o(v[i], v[p]) {
                            assert(o(v[p], v[p]));
                        }
                    }
                } else if parent(j) == i {
                    assert(w[j] == v[j] && w[i] == v[p]);
                    assert(!o(v[p], v[j]));
                } else if parent(j) == p {
                    assert(holds_at(o, v, j));
                    if o(v[i], v[j]) {
                        assert(o(v[p], v[j]));
                    }
                } else {
                    assert(holds_at(o, v, j));
                }
            }
            assert forall|j: int| 1 <= j < w.len() && #[trigger] parent(j) == p && p > 0 implies !o(w[parent(p)], w[j]) by {
                assert(holds_at(o, v, p));
                if j != i {
                    assert(holds_at(o, v, j));
                    assert(!o(v[parent(p)], v[p]) && !o(v[p], v[j]));
                }
            }
            lemma_sift(o, w, p);
        }
    }
}

proof fn lemma_sink(o: spec_fn(usize, usize) -> bool, v: Seq<usize>, i: int)
    requires
        is_ranking(o),
        0 <= i < v.len(),
        has_hole(o, v, i),
    ensures
        has_hole(o, sunk(o, v, i).0, sunk(o, v, i).1),
    decreases v.len() - i,
{
    if 2 * i + 1 < v.len() {
        let c = higher_child(o, v, i);
        let w = swapped(v, i, c);
        assert(parent(c) == i);
        assert forall|j: int| 1 <= j < w.len() && j != c && parent(j) != c implies #[trigger] holds_at(o, w, j) by {
            if j == i {
                assert(!o(v[parent(i)], v[c]));
            } else if parent(j) == i {
                assert(j == 2 * i + 1 || j == 2 * i + 2);
                if c == 2 * i + 2 {
                    assert(o(v[2 * i + 1], v[c]));
                    if o(v[c], v[2 * i + 1]) {
                        assert(o(v[c], v[c]));
                    }
                }
            } else {
                assert(holds_at(o, v, j));
            }
        }
        assert forall|j: int| 1 <= j < w.len() && #[trigger] parent(j) == c && c > 0 implies !o(w[parent(c)], w[j]) by {
            assert(holds_at(o, v, j));
        }
        lemma_sink(o, w, c);
    }
}

/// Adding a place to a heap leaves a heap.
pub proof fn adding_keeps_the_heap(o: spec_fn(usize, usize) -> bool, v: Seq<usize>, x: usize)
    requires
        is_ranking(o),
        is_heap(o, v),
    ensures
        is_heap(o, pushed(o, v, x)),
{
    let w = v.push(x);
    assert forall|j: int| 1 <= j < w.len() && j != v.len() implies #[trigger] holds_at(o, w, j) by {
        assert(holds_at(o, v, j));
    }
    lemma_sift(o, w, v.len() as int);
}

/// Removing the highest place of a heap leaves a heap.
pub proof fn removing_keeps_the_heap(o: spec_fn(usize, usize) -> bool, v: Seq<usize>)
    requires
        is_ranking(o),
        is_heap(o, v),
    ensures
        is_heap(o, popped(o, v)),
        v.len() > 0 ==> popped(o, v).len() == v.len() - 1,
{
    if v.len() > 1 {
        let (w, h) = sunk(o, v, 0);
        lemma_sunk_range(o, v, 0);
        assert(has_hole(o, v, 0));
        lemma_sink(o, v, 0);
        let last = v.len() - 1;
        if h == last {
            let r = w.drop_last();
            assert forall|j: int| 1 <= j < r.len() implies #[trigger] holds_at(o, r, j) by {
                assert(holds_at(o, w, j));
            }
        } else {
            let r = swapped(w, h, last).drop_last();
            assert forall|j: int| 1 <= j < r.len() && j != h implies #[trigger] holds_at(o, r, j) by {
                assert(parent(j) != h);
                assert(holds_at(o, w, j));
            }
            lemma_sift(o, r, h);
        }
    }
}

/// No place of a heap ranks above its first.
pub proof fn the_first_place_is_the_highest(o: spec_fn(usize, usize) -> bool, v: Seq<usize>, i: int)
    requires
        is_ranking(o),
        is_heap(o, v),
        0 <= i < v.len(),
    ensures
        !o(v[0], v[i]),
    decreases i,
{
    if i > 0 {
        the_first_place_is_the_highest(o, v, parent(i));
        assert(holds_at(o, v, i));
    }
}

proof fn lemma_swap_keeps(v: Seq<usize>, i: int, j: int)
    requires
        0 <= i < v.len(),
        0 <= j < v.len(),
    ensures
        swapped(v, i, j).to_multiset() == v.to_multiset(),
{
    vstd::seq_lib::to_multiset_update(v, i, v[j]);
    let w = v.update(i, v[j]);
    vstd::seq_lib::to_multiset_update(w, j, v[i]);
    broadcast use vstd::seq_lib::group_to_multiset_ensures;
    broadcast use vstd::multiset::group_multiset_axioms;
    assert(v.to_multiset().count(v[i]) > 0);
    assert(v.to_multiset().count(v[j]) > 0);
    assert(swapped(v, i, j).to_multiset() =~= v.to_multiset());
}

proof fn lemma_sift_keeps(o: spec_fn(usize, usize) -> bool, v: Seq<usize>, i: int)
    requires
        0 <= i < v.len(),
    ensures
        sifted(o, v, i).to_multiset() == v.to_multiset(),
    decreases i,
{
    if i > 0 && o(v[parent(i)], v[i]) {
        lemma_swap_keeps(v, i, parent(i));
        lemma_sift_keeps(o, swapped(v, i, parent(i)), parent(i));
    }
}

proof fn lemma_sink_keeps(o: spec_fn(usize, usize) -> bool, v: Seq<usize>, i: int)
    requires
        0 <= i < v.len(),
    ensures
        sunk(o, v, i).0.to_multiset() == v.to_multiset(),
        sunk(o, v, i).0[sunk(o, v, i).1] == v[i],
    decreases v.len() - i,
{
    if 2 * i + 1 < v.len() {
        let c = higher_child(o, v, i);
        lemma_swap_keeps(v, i, c);
        lemma_sink_keeps(o, swapped(v, i, c), c);
    }
}

/// Adding a place adds it to what a heap holds; removing takes the first place away. Nothing else comes
/// or goes.
pub proof fn a_heap_loses_nothing_else(o: spec_fn(usize, usize) -> bool, v: Seq<usize>, x: usize)
    ensures
        pushed(o, v, x).to_multiset() == v.to_multiset().insert(x),
        v.len() > 0 ==> popped(o, v).to_multiset() == v.to_multiset().remove(v[0]),
{
    broadcast use vstd::seq_lib::group_to_multiset_ensures;
    broadcast use vstd::multiset::group_multiset_axioms;

    lemma_sift_keeps(o, v.push(x), v.len() as int);
    assert(v.push(x).to_multiset() =~= v.to_multiset().insert(x));
    if v.len() == 1 {
        assert(v.remove(0) =~= Seq::empty());
        assert(popped(o, v).to_multiset() =~= v.to_multiset().remove(v[0]));
    }
    if v.len() > 1 {
        let (w, h) = sunk(o, v, 0);
        let last = v.len() - 1;
        lemma_sunk_range(o, v, 0);
        lemma_sink_keeps(o, v, 0);
        if h == last {
            assert(w.drop_last() =~= w.remove(last));
        } else {
            lemma_swap_keeps(w, h, last);
            let s = swapped(w, h, last);
            assert(s.drop_last() =~= s.remove(last));
            lemma_sift_keeps(o, s.drop_last(), h);
        }
    }
}


/// An order by keys: the place with the least key is the highest.
#[derive(Debug)]
pub struct LeastKeyFirst {
    pub keys: Vec<i32>,
}

impl HeapOrder for LeastKeyFirst {
    open spec fn knows(&self, a: usize) -> bool {
        a < self.keys@.len()
    }

    open spec fn order(&self) -> spec_fn(usize, usize) -> bool {
        let keys = self.keys@;
        |a: usize, b: usize| keys[a as int] > keys[b as int]
    }

    fn is_below(&self, a: usize, b: usize) -> (r: bool) {
        self.keys[a] > self.keys[b]
    }
}

} // verus!
