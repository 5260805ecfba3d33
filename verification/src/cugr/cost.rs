//! What the routing programs ask of a cost: a sum, a difference and an order. Of the first two nothing is
//! assumed, not even that a sum does not depend on how it is bracketed, so that what is proved holds of
//! rounded costs too; of the order, that costs do not fall for ever.

use vstd::prelude::*;

verus! {

/// A cost.
pub trait Cost: Copy + Sized {
    spec fn sum(self, other: Self) -> Self;

    spec fn difference(self, other: Self) -> Self;

    spec fn below(self, other: Self) -> bool;

    /// Where a cost stands among all costs.
    spec fn rank(self) -> u64;

    /// A cost below another stands before it.
    proof fn below_ranks_before(self, other: Self)
        ensures
            self.below(other) ==> self.rank() < other.rank(),
    ;

    fn plus(self, other: Self) -> (r: Self)
        ensures
            r == self.sum(other),
    ;

    fn minus(self, other: Self) -> (r: Self)
        ensures
            r == self.difference(other),
    ;

    fn is_below(self, other: Self) -> (r: bool)
        ensures
            r == self.below(other),
    ;
}

/// A value brought into the range of the machine.
pub open spec fn held(v: int) -> i64 {
    if v > i64::MAX {
        i64::MAX
    } else if v < i64::MIN {
        i64::MIN
    } else {
        v as i64
    }
}

fn hold(v: i128) -> (r: i64)
    ensures
        r == held(v as int),
{
    if v > i64::MAX as i128 {
        i64::MAX
    } else if v < i64::MIN as i128 {
        i64::MIN
    } else {
        v as i64
    }
}

/// Whole costs: a sum or a difference stops at the ends of the range.
impl Cost for i64 {
    open spec fn sum(self, other: i64) -> i64 {
        held(self + other)
    }

    open spec fn difference(self, other: i64) -> i64 {
        held(self - other)
    }

    open spec fn below(self, other: i64) -> bool {
        self < other
    }

    open spec fn rank(self) -> u64 {
        (self - i64::MIN) as u64
    }

    proof fn below_ranks_before(self, other: i64) {
    }

    fn plus(self, other: i64) -> (r: i64) {
        hold(self as i128 + other as i128)
    }

    fn minus(self, other: i64) -> (r: i64) {
        hold(self as i128 - other as i128)
    }

    fn is_below(self, other: i64) -> (r: bool) {
        self < other
    }
}


// ---- costs that add up ----

/// Whether a cost is no more than another.
pub open spec fn at_most<C: Cost>(a: C, b: C) -> bool {
    !b.below(a)
}

/// Whether costs are ordered, and a sum is no less where its parts are no less. Whole costs are, and so are costs
/// that are rounded to the nearest.
pub open spec fn costs_add_up<C: Cost>() -> bool {
    &&& forall|a: C| !#[trigger] a.below(a)
    &&& forall|a: C, b: C| #[trigger] a.below(b) ==> at_most(a, b)
    &&& forall|a: C, b: C, c: C| #[trigger] at_most(a, b) && #[trigger] at_most(b, c) ==> at_most(a, c)
    &&& forall|a: C, b: C, c: C, d: C| at_most(a, b) && at_most(c, d) ==> #[trigger] at_most(a.sum(c), b.sum(d))
}

/// Whole costs add up.
pub proof fn whole_costs_add_up()
    ensures
        costs_add_up::<i64>(),
{
}

/// Adding a whole cost that is not negative lowers no cost.
pub proof fn a_whole_cost_lowers_nothing(a: i64, w: i64)
    requires
        w >= 0,
    ensures
        at_most(a, a.sum(w)),
{
}

} // verus!
