//! What a list, a total and a count made entry by entry are: the flat list of the pieces, the
//! sum of the amounts, the number of the places.

use vstd::prelude::*;
use vstd::set_lib::set_int_range;
use vstd::set_lib::lemma_int_range;

verus! {

/// The pieces of the places below `n`, one after the other.
pub open spec fn all_of<A>(n: int, piece: spec_fn(int) -> Seq<A>) -> Seq<A> {
    Seq::new(n as nat, piece).flatten()
}

/// The sum of the amounts of the places below `n`.
pub open spec fn sum_of(n: int, amount: spec_fn(int) -> int) -> int {
    Seq::new(n as nat, amount).fold_left(0int, |a: int, b: int| a + b)
}

/// How many places below `n` are picked.
pub open spec fn count_of(n: int, picked: spec_fn(int) -> bool) -> int {
    set_int_range(0, n).filter(picked).len() as int
}

/// The least place from `from` on and below `n` that is picked, if one is.
pub open spec fn is_first_of(r: Option<int>, from: int, n: int, picked: spec_fn(int) -> bool) -> bool {
    match r {
        Some(k) => from <= k < n && picked(k) && (forall|j: int| from <= j < k ==> !#[trigger] picked(j)),
        None => forall|j: int| from <= j < n ==> !#[trigger] picked(j),
    }
}

/// The greatest place below `n` that is picked, if one is.
pub open spec fn is_last_of(r: Option<int>, n: int, picked: spec_fn(int) -> bool) -> bool {
    match r {
        Some(k) => 0 <= k < n && picked(k) && (forall|j: int| k < j < n ==> !#[trigger] picked(j)),
        None => forall|j: int| 0 <= j < n ==> !#[trigger] picked(j),
    }
}

/// No place below `n` has a greater amount than `m`, which is the amount of one of them or, where
/// none is above it, `floor`.
pub open spec fn is_most_of(m: int, floor: int, n: int, amount: spec_fn(int) -> int) -> bool {
    &&& m >= floor
    &&& forall|k: int| 0 <= k < n ==> #[trigger] amount(k) <= m
    &&& m == floor || exists|k: int| 0 <= k < n && #[trigger] amount(k) == m
}

/// No place below `n` has a lesser amount than `m`, which is the amount of one of them or, where
/// none is below it, `ceiling`.
pub open spec fn is_least_of(m: int, ceiling: int, n: int, amount: spec_fn(int) -> int) -> bool {
    &&& m <= ceiling
    &&& forall|k: int| 0 <= k < n ==> #[trigger] amount(k) >= m
    &&& m == ceiling || exists|k: int| 0 <= k < n && #[trigger] amount(k) == m
}

/// One place more adds its piece at the end.
pub proof fn lemma_all_next<A>(n: int, piece: spec_fn(int) -> Seq<A>)
    requires
        n >= 0,
    ensures
        all_of(n + 1, piece) == all_of(n, piece) + piece(n),
{
    let (s, t) = (Seq::new((n + 1) as nat, piece), Seq::new(n as nat, piece));
    s.lemma_flatten_and_flatten_alt_are_equivalent();
    t.lemma_flatten_and_flatten_alt_are_equivalent();
    assert(s.drop_last() =~= t);
    assert(s.flatten_alt() =~= t.flatten_alt() + piece(n));
}

/// No places have no pieces.
pub proof fn lemma_all_none<A>(piece: spec_fn(int) -> Seq<A>)
    ensures
        all_of(0, piece) == Seq::<A>::empty(),
{
    let s = Seq::new(0, piece);
    assert(s.len() == 0);
    assert(s.flatten() =~= Seq::empty());
}

/// One place more adds its amount.
pub proof fn lemma_sum_next(n: int, amount: spec_fn(int) -> int)
    requires
        n >= 0,
    ensures
        sum_of(n + 1, amount) == sum_of(n, amount) + amount(n),
{
    let (s, t) = (Seq::new((n + 1) as nat, amount), Seq::new(n as nat, amount));
    assert(s.drop_last() =~= t);
}

/// No places sum up to nothing.
pub proof fn lemma_sum_none(amount: spec_fn(int) -> int)
    ensures
        sum_of(0, amount) == 0,
{
    let s = Seq::new(0, amount);
    assert(s.len() == 0);
}

/// One place more counts if it is picked.
pub proof fn lemma_count_next(n: int, picked: spec_fn(int) -> bool)
    requires
        n >= 0,
    ensures
        count_of(n + 1, picked) == count_of(n, picked) + (if picked(n) { 1int } else { 0int }),
{
    lemma_int_range(0, n);
    lemma_int_range(0, n + 1);
    let (s, t) = (set_int_range(0, n + 1).filter(picked), set_int_range(0, n).filter(picked));
    if picked(n) {
        assert(s =~= t.insert(n));
    } else {
        assert(s =~= t);
    }
}

/// Of no places none is picked.
pub proof fn lemma_count_none(picked: spec_fn(int) -> bool)
    ensures
        count_of(0, picked) == 0,
{
    lemma_int_range(0, 0);
    assert(set_int_range(0, 0).filter(picked) =~= Set::empty());
}

/// The first place's piece comes first.
pub proof fn lemma_all_first<A>(n: int, piece: spec_fn(int) -> Seq<A>, rest: spec_fn(int) -> Seq<A>)
    requires
        n >= 0,
        forall|i: int| 0 <= i < n ==> #[trigger] rest(i) == piece(i + 1),
    ensures
        all_of(n + 1, piece) == piece(0) + all_of(n, rest),
{
    let (s, t) = (Seq::new((n + 1) as nat, piece), Seq::new(n as nat, rest));
    assert(s.drop_first() =~= t);
}

/// The first place's amount is one of those summed.
pub proof fn lemma_sum_first(n: int, amount: spec_fn(int) -> int, rest: spec_fn(int) -> int)
    requires
        n >= 0,
        forall|i: int| 0 <= i < n ==> #[trigger] rest(i) == amount(i + 1),
    ensures
        sum_of(n + 1, amount) == amount(0) + sum_of(n, rest),
    decreases n,
{
    lemma_sum_next(n, amount);
    if n > 0 {
        lemma_sum_first(n - 1, amount, rest);
        lemma_sum_next(n - 1, rest);
    } else {
        lemma_sum_none(amount);
        lemma_sum_none(rest);
    }
}

} // verus!
