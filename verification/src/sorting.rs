//! A stable order of a list by its keys.

use vstd::prelude::*;

verus! {

/// Whether place `a` comes before place `b`: by key, then by place.
pub open spec fn comes_before(keys: Seq<i64>, a: usize, b: usize) -> bool {
    keys[a as int] < keys[b as int] || (keys[a as int] == keys[b as int] && a < b)
}

/// Whether a list of places from `lo` up to `hi` is in order.
pub open spec fn in_order(keys: Seq<i64>, p: Seq<usize>, lo: int, hi: int) -> bool {
    &&& forall|i: int| 0 <= i < p.len() ==> lo <= (#[trigger] p[i]) < hi
    &&& forall|i: int, j: int| 0 <= i < j < p.len() ==> comes_before(keys, #[trigger] p[i], #[trigger] p[j])
}

/// Whether a list holds every place of `keys` in order: by key, and where keys are equal in the order
/// of the places.
pub open spec fn is_order(keys: Seq<i64>, p: Seq<usize>) -> bool {
    p.len() == keys.len() && in_order(keys, p, 0, keys.len() as int)
}

/// An order lists every place.
pub proof fn an_order_lists_every_place(keys: Seq<i64>, p: Seq<usize>, k: int)
    requires
        is_order(keys, p),
        0 <= k < keys.len(),
        keys.len() <= usize::MAX,
    ensures
        p.contains(k as usize),
{
    let n = keys.len() as int;
    assert(p.no_duplicates()) by {
        assert forall|i: int, j: int| 0 <= i < p.len() && 0 <= j < p.len() && i != j implies p[i] != p[j] by {
            if i < j {
                assert(comes_before(keys, p[i], p[j]));
            } else {
                assert(comes_before(keys, p[j], p[i]));
            }
        }
    }
    let s = p.to_set();
    let q = p.map_values(|u: usize| u as int);
    assert(q.no_duplicates());
    let t = q.to_set();
    q.unique_seq_to_set();
    let r = vstd::set_lib::set_int_range(0, n);
    vstd::set_lib::lemma_int_range(0, n);
    assert(t.subset_of(r)) by {
        assert forall|x: int| t.contains(x) implies r.contains(x) by {
            let i = choose|i: int| 0 <= i < q.len() && q[i] == x;
            assert(p[i] < n);
        }
    }
    vstd::set_lib::lemma_subset_equality(t, r);
    assert(t.contains(k));
    let i = choose|i: int| 0 <= i < q.len() && q[i] == k;
    assert(p[i] == k as usize);
}

fn merge(keys: &Vec<i64>, a: &Vec<usize>, b: &Vec<usize>, Ghost(lo): Ghost<int>, Ghost(mid): Ghost<int>, Ghost(hi): Ghost<int>) -> (r: Vec<usize>)
    requires
        0 <= lo <= mid <= hi <= keys@.len(),
        in_order(keys@, a@, lo, mid),
        in_order(keys@, b@, mid, hi),
    ensures
        in_order(keys@, r@, lo, hi),
        r@.len() == a@.len() + b@.len(),
{
    let mut r: Vec<usize> = Vec::new();
    let mut i: usize = 0;
    let mut j: usize = 0;
    while i < a.len() || j < b.len()
        invariant
            0 <= lo <= mid <= hi <= keys@.len(),
            in_order(keys@, a@, lo, mid),
            in_order(keys@, b@, mid, hi),
            i <= a@.len(),
            j <= b@.len(),
            in_order(keys@, r@, lo, hi),
            r@.len() == i + j,
            forall|k: int, x: int| 0 <= k < r@.len() && i <= x < a@.len() ==> comes_before(keys@, #[trigger] r@[k], #[trigger] a@[x]),
            forall|k: int, x: int| 0 <= k < r@.len() && j <= x < b@.len() ==> comes_before(keys@, #[trigger] r@[k], #[trigger] b@[x]),
        decreases a@.len() - i + b@.len() - j,
    {
        if j >= b.len() || (i < a.len() && keys[a[i]] <= keys[b[j]]) {
            let v: usize = a[i];
            r.push(v);
            proof {
                assert forall|x: int| j <= x < b@.len() implies comes_before(keys@, v, #[trigger] b@[x]) by {
                    if x > j {
                        assert(comes_before(keys@, b@[j as int], b@[x]));
                    }
                }
            }
            i += 1;
        } else {
            let v: usize = b[j];
            r.push(v);
            proof {
                assert forall|x: int| i <= x < a@.len() implies comes_before(keys@, v, #[trigger] a@[x]) by {
                    if x > i {
                        assert(comes_before(keys@, a@[i as int], a@[x]));
                    }
                }
            }
            j += 1;
        }
    }
    r
}

fn order_range(keys: &Vec<i64>, lo: usize, hi: usize) -> (r: Vec<usize>)
    requires
        lo <= hi <= keys@.len(),
    ensures
        in_order(keys@, r@, lo as int, hi as int),
        r@.len() == hi - lo,
    decreases hi - lo,
{
    if hi - lo <= 1 {
        let mut r: Vec<usize> = Vec::new();
        if lo < hi {
            r.push(lo);
        }
        return r;
    }
    let mid: usize = lo + (hi - lo) / 2;
    let a = order_range(keys, lo, mid);
    let b = order_range(keys, mid, hi);
    merge(keys, &a, &b, Ghost(lo as int), Ghost(mid as int), Ghost(hi as int))
}

/// The places of a list in the order of its keys, stable.
pub fn order_by(keys: &Vec<i64>) -> (p: Vec<usize>)
    ensures
        is_order(keys@, p@),
{
    order_range(keys, 0, keys.len())
}

} // verus!
