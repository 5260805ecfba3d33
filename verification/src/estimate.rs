//! The first estimate of demand, laid down before anything is routed.
//!
//! Every segment of every net is charged to a grid of edges, and only then does any segment choose
//! its bend, so that the first net chooses against everyone's demand. Demand is counted in halves of
//! a track: a slanted segment charges half its cost to each of the runs it may take.

use crate::lists::{all_of, lemma_all_next, lemma_all_none, lemma_sum_next, lemma_sum_none, sum_of};
use vstd::prelude::*;

use crate::grids::{at2, in_grid2, lemma_at2, lemma_at2_injective};
use crate::single::{single_of, to_single};

verus! {

/// A two-pin piece of a net's tree, its ends in the order of x.
#[derive(Debug, Clone, Copy, PartialEq, Eq, Structural)]
pub struct Segment {
    pub x1: i32,
    pub y1: i32,
    pub x2: i32,
    pub y2: i32,
    pub edge_cost: i8,
}

/// The demand grid: an accumulator, in halves of a track, per horizontal and per vertical edge.
///
/// Edges lie between cells: on a grid of `x` columns and `y` rows there are `(x - 1) * y` horizontal
/// edges and `x * (y - 1)` vertical ones. The committed demand is kept beside the estimate.
#[derive(Debug, Clone)]
pub struct EstimateGrid {
    pub x_grids: usize,
    pub y_grids: usize,
    pub h: Vec<i64>,
    pub v: Vec<i64>,
    pub usage_h: Vec<i64>,
    pub usage_v: Vec<i64>,
}

/// One less, but not below zero.
pub open spec fn less_one(n: int) -> int {
    if n > 0 { n - 1 } else { 0 }
}

/// 1 on the edges of a row from column `x1` up to `x2`, 0 elsewhere.
pub open spec fn on_row(x1: int, x2: int, y: int, cx: int, cy: int) -> int {
    if cy == y && x1 <= cx < x2 { 1 } else { 0 }
}

/// 1 on the edges of a column from row `y1` up to `y2`, 0 elsewhere.
pub open spec fn on_column(x: int, y1: int, y2: int, cx: int, cy: int) -> int {
    if cx == x && y1 <= cy < y2 { 1 } else { 0 }
}

pub open spec fn least(a: int, b: int) -> int {
    if a < b { a } else { b }
}

pub open spec fn most(a: int, b: int) -> int {
    if a > b { a } else { b }
}

impl EstimateGrid {
    pub closed spec fn wf(&self) -> bool {
        &&& self.h@.len() == self.rows() * self.across()
        &&& self.usage_h@.len() == self.rows() * self.across()
        &&& self.v@.len() == self.up() * self.columns()
        &&& self.usage_v@.len() == self.up() * self.columns()
    }

    pub open spec fn columns(&self) -> int {
        self.x_grids as int
    }

    pub open spec fn rows(&self) -> int {
        self.y_grids as int
    }

    /// The horizontal edges of a row.
    pub open spec fn across(&self) -> int {
        less_one(self.x_grids as int)
    }

    /// The vertical edges of a column.
    pub open spec fn up(&self) -> int {
        less_one(self.y_grids as int)
    }

    /// Whether there is a horizontal edge that leaves cell `(x, y)`.
    pub open spec fn has_h(&self, x: int, y: int) -> bool {
        in_grid2(x, y, self.across(), self.rows())
    }

    /// Whether there is a vertical edge that leaves cell `(x, y)`.
    pub open spec fn has_v(&self, x: int, y: int) -> bool {
        in_grid2(x, y, self.columns(), self.up())
    }

    /// The estimate on a horizontal edge.
    pub closed spec fn eh(&self, x: int, y: int) -> int {
        self.h@[at2(x, y, self.across())] as int
    }

    /// The estimate on a vertical edge.
    pub closed spec fn ev(&self, x: int, y: int) -> int {
        self.v@[at2(x, y, self.columns())] as int
    }

    /// The committed demand on a horizontal edge.
    pub closed spec fn uh(&self, x: int, y: int) -> int {
        self.usage_h@[at2(x, y, self.across())] as int
    }

    /// The committed demand on a vertical edge.
    pub closed spec fn uv(&self, x: int, y: int) -> int {
        self.usage_v@[at2(x, y, self.columns())] as int
    }

    /// Whether every estimate is at most `m` away from zero.
    pub open spec fn within(&self, m: int) -> bool {
        &&& forall|x: int, y: int| self.has_h(x, y) ==> -m <= #[trigger] self.eh(x, y) <= m
        &&& forall|x: int, y: int| self.has_v(x, y) ==> -m <= #[trigger] self.ev(x, y) <= m
    }

    /// Whether every committed demand is at most `m` away from zero.
    pub open spec fn usage_within(&self, m: int) -> bool {
        &&& forall|x: int, y: int| self.has_h(x, y) ==> -m <= #[trigger] self.uh(x, y) <= m
        &&& forall|x: int, y: int| self.has_v(x, y) ==> -m <= #[trigger] self.uv(x, y) <= m
    }

    /// Whether two grids have the same sides.
    pub open spec fn same_sides(&self, g: &Self) -> bool {
        self.x_grids == g.x_grids && self.y_grids == g.y_grids && self.wf() && g.wf()
    }

    /// Whether two grids hold the same committed demand.
    pub open spec fn same_usage(&self, g: &Self) -> bool {
        &&& forall|x: int, y: int| #[trigger] self.uh(x, y) == g.uh(x, y)
        &&& forall|x: int, y: int| #[trigger] self.uv(x, y) == g.uv(x, y)
    }

    /// Whether two grids hold the same estimate.
    pub open spec fn same_estimate(&self, g: &Self) -> bool {
        &&& forall|x: int, y: int| #[trigger] self.eh(x, y) == g.eh(x, y)
        &&& forall|x: int, y: int| #[trigger] self.ev(x, y) == g.ev(x, y)
    }

    /// A grid without demand.
    pub fn new(x_grids: usize, y_grids: usize) -> (g: Self)
        requires
            x_grids * y_grids <= usize::MAX,
        ensures
            g.wf(),
            g.x_grids == x_grids,
            g.y_grids == y_grids,
            g.within(0),
            g.usage_within(0),
    {
        let across: usize = if x_grids > 0 { x_grids - 1 } else { 0 };
        let up: usize = if y_grids > 0 { y_grids - 1 } else { 0 };
        proof {
            assert(across * y_grids <= x_grids * y_grids) by (nonlinear_arith)
                requires
                    across <= x_grids,
                    0 <= y_grids,
            ;
            assert(x_grids * up <= x_grids * y_grids) by (nonlinear_arith)
                requires
                    up <= y_grids,
                    0 <= x_grids,
            ;
            assert(x_grids * up == up * x_grids) by (nonlinear_arith);
            assert(across * y_grids == y_grids * across) by (nonlinear_arith);
        }
        let g = EstimateGrid {
            x_grids,
            y_grids,
            h: crate::vecs::filled(0i64, across * y_grids),
            v: crate::vecs::filled(0i64, x_grids * up),
            usage_h: crate::vecs::filled(0i64, across * y_grids),
            usage_v: crate::vecs::filled(0i64, x_grids * up),
        };
        proof {
            assert forall|x: int, y: int| g.has_h(x, y) implies #[trigger] g.eh(x, y) == 0 && g.uh(x, y) == 0 by {
                lemma_at2(x, y, g.across(), g.rows());
            }
            assert forall|x: int, y: int| g.has_h(x, y) implies #[trigger] g.uh(x, y) == 0 by {
                lemma_at2(x, y, g.across(), g.rows());
            }
            assert forall|x: int, y: int| g.has_v(x, y) implies #[trigger] g.ev(x, y) == 0 && g.uv(x, y) == 0 by {
                lemma_at2(x, y, g.columns(), g.up());
            }
            assert forall|x: int, y: int| g.has_v(x, y) implies #[trigger] g.uv(x, y) == 0 by {
                lemma_at2(x, y, g.columns(), g.up());
            }
        }
        g
    }

    /// The number of horizontal edges across: one fewer than the columns.
    pub fn h_columns(&self) -> (n: usize)
        ensures
            n == self.across(),
    {
        if self.x_grids > 0 { self.x_grids - 1 } else { 0 }
    }

    /// The number of vertical edges down: one fewer than the rows.
    pub fn v_rows(&self) -> (n: usize)
        ensures
            n == self.up(),
    {
        if self.y_grids > 0 { self.y_grids - 1 } else { 0 }
    }

    fn place_h(&self, x: usize, y: usize) -> (i: usize)
        requires
            self.wf(),
            self.has_h(x as int, y as int),
        ensures
            i == at2(x as int, y as int, self.across()),
            i < self.h@.len(),
            i < self.usage_h@.len(),
    {
        proof {
            lemma_at2(x as int, y as int, self.across(), self.rows());
        }
        let total: usize = self.h.len();
        y * self.h_columns() + x
    }

    fn place_v(&self, x: usize, y: usize) -> (i: usize)
        requires
            self.wf(),
            self.has_v(x as int, y as int),
        ensures
            i == at2(x as int, y as int, self.columns()),
            i < self.v@.len(),
            i < self.usage_v@.len(),
    {
        proof {
            lemma_at2(x as int, y as int, self.columns(), self.up());
        }
        let total: usize = self.v.len();
        y * self.x_grids + x
    }

    /// The estimate on the horizontal edge that leaves cell `(x, y)`, in halves.
    pub fn h(&self, x: usize, y: usize) -> (r: i64)
        requires
            self.wf(),
            self.has_h(x as int, y as int),
        ensures
            r == self.eh(x as int, y as int),
    {
        let i: usize = self.place_h(x, y);
        self.h[i]
    }

    /// The estimate on the vertical edge that leaves cell `(x, y)`, in halves.
    pub fn v(&self, x: usize, y: usize) -> (r: i64)
        requires
            self.wf(),
            self.has_v(x as int, y as int),
        ensures
            r == self.ev(x as int, y as int),
    {
        let i: usize = self.place_v(x, y);
        self.v[i]
    }

    /// The committed demand on the horizontal edge that leaves cell `(x, y)`, in halves.
    pub fn usage_h(&self, x: usize, y: usize) -> (r: i64)
        requires
            self.wf(),
            self.has_h(x as int, y as int),
        ensures
            r == self.uh(x as int, y as int),
    {
        let i: usize = self.place_h(x, y);
        self.usage_h[i]
    }

    /// The committed demand on the vertical edge that leaves cell `(x, y)`, in halves.
    pub fn usage_v(&self, x: usize, y: usize) -> (r: i64)
        requires
            self.wf(),
            self.has_v(x as int, y as int),
        ensures
            r == self.uv(x as int, y as int),
    {
        let i: usize = self.place_v(x, y);
        self.usage_v[i]
    }

    /// Charges one horizontal edge's committed demand.
    pub fn update_usage_h(&mut self, x: i32, y: i32, amount: i64)
        requires
            old(self).wf(),
            old(self).has_h(x as int, y as int),
            i64::MIN <= old(self).uh(x as int, y as int) + amount <= i64::MAX,
        ensures
            final(self).same_sides(old(self)),
            final(self).same_estimate(old(self)),
            forall|cx: int, cy: int| old(self).has_h(cx, cy) ==> #[trigger] final(self).uh(cx, cy) == old(self).uh(cx, cy) + amount * on_row(x as int, x + 1, y as int, cx, cy),
            forall|cx: int, cy: int| #[trigger] final(self).uv(cx, cy) == old(self).uv(cx, cy),
    {
        let ghost s0 = *self;
        let i: usize = self.place_h(x as usize, y as usize);
        self.usage_h[i] = self.usage_h[i] + amount;
        proof {
            assert forall|cx: int, cy: int| s0.has_h(cx, cy) implies #[trigger] self.uh(cx, cy) == s0.uh(cx, cy) + amount * on_row(x as int, x + 1, y as int, cx, cy) by {
                lemma_at2(cx, cy, s0.across(), s0.rows());
                if at2(cx, cy, s0.across()) == i {
                    lemma_at2_injective(cx, cy, x as int, y as int, s0.across(), s0.rows());
                }
                assert(amount * 1 == amount && amount * 0 == 0) by (nonlinear_arith);
            }
        }
    }

    /// Charges one vertical edge's committed demand.
    pub fn update_usage_v(&mut self, x: i32, y: i32, amount: i64)
        requires
            old(self).wf(),
            old(self).has_v(x as int, y as int),
            i64::MIN <= old(self).uv(x as int, y as int) + amount <= i64::MAX,
        ensures
            final(self).same_sides(old(self)),
            final(self).same_estimate(old(self)),
            forall|cx: int, cy: int| old(self).has_v(cx, cy) ==> #[trigger] final(self).uv(cx, cy) == old(self).uv(cx, cy) + amount * on_column(x as int, y as int, y + 1, cx, cy),
            forall|cx: int, cy: int| #[trigger] final(self).uh(cx, cy) == old(self).uh(cx, cy),
    {
        let ghost s0 = *self;
        let i: usize = self.place_v(x as usize, y as usize);
        self.usage_v[i] = self.usage_v[i] + amount;
        proof {
            assert forall|cx: int, cy: int| s0.has_v(cx, cy) implies #[trigger] self.uv(cx, cy) == s0.uv(cx, cy) + amount * on_column(x as int, y as int, y + 1, cx, cy) by {
                lemma_at2(cx, cy, s0.columns(), s0.up());
                if at2(cx, cy, s0.columns()) == i {
                    lemma_at2_injective(cx, cy, x as int, y as int, s0.columns(), s0.up());
                }
                assert(amount * 1 == amount && amount * 0 == 0) by (nonlinear_arith);
            }
        }
    }

    /// Adds demand along a row from column `x1` to `x2`: the edge that leaves the last cell is not
    /// charged, since the run ends there.
    pub fn update_h(&mut self, x1: i32, x2: i32, y: i32, amount: i64)
        requires
            old(self).wf(),
            x1 < x2 ==> 0 <= x1 && x2 <= old(self).across() && 0 <= y < old(self).rows(),
            forall|x: int| x1 <= x < x2 ==> i64::MIN <= #[trigger] old(self).eh(x, y as int) + amount <= i64::MAX,
        ensures
            final(self).same_sides(old(self)),
            final(self).same_usage(old(self)),
            forall|cx: int, cy: int| old(self).has_h(cx, cy) ==> #[trigger] final(self).eh(cx, cy) == old(self).eh(cx, cy) + amount * on_row(x1 as int, x2 as int, y as int, cx, cy),
            forall|cx: int, cy: int| #[trigger] final(self).ev(cx, cy) == old(self).ev(cx, cy),
    {
        let ghost s0 = *self;
        let mut x: i32 = x1;
        assert(amount * 1 == amount && amount * 0 == 0) by (nonlinear_arith);
        while x < x2
            invariant
                s0.wf(),
                x1 <= x,
                x <= x2 || (x2 < x1 && x == x1),
                x1 < x2 ==> 0 <= x1 && x2 <= s0.across() && 0 <= y < s0.rows(),
                forall|x: int| x1 <= x < x2 ==> i64::MIN <= #[trigger] s0.eh(x, y as int) + amount <= i64::MAX,
                self.same_sides(&s0),
                self.usage_h == s0.usage_h,
                self.usage_v == s0.usage_v,
                self.v == s0.v,
                amount * 1 == amount && amount * 0 == 0,
                forall|cx: int, cy: int| s0.has_h(cx, cy) ==> #[trigger] self.eh(cx, cy) == s0.eh(cx, cy) + amount * on_row(x1 as int, x as int, y as int, cx, cy),
            decreases x2 - x,
        {
            let ghost s1 = *self;
            assert(s0.has_h(x as int, y as int));
            assert(s1.eh(x as int, y as int) == s0.eh(x as int, y as int));
            let i: usize = self.place_h(x as usize, y as usize);
            self.h[i] = self.h[i] + amount;
            proof {
                assert forall|cx: int, cy: int| s0.has_h(cx, cy) implies #[trigger] self.eh(cx, cy) == s0.eh(cx, cy) + amount * on_row(x1 as int, x + 1, y as int, cx, cy) by {
                    assert(s1.eh(cx, cy) == s0.eh(cx, cy) + amount * on_row(x1 as int, x as int, y as int, cx, cy));
                    lemma_at2(cx, cy, s0.across(), s0.rows());
                    if at2(cx, cy, s0.across()) == i {
                        lemma_at2_injective(cx, cy, x as int, y as int, s0.across(), s0.rows());
                    }
                }
            }
            x += 1;
        }
        proof {
            if x2 < x1 {
                assert forall|cx: int, cy: int| s0.has_h(cx, cy) implies #[trigger] self.eh(cx, cy) == s0.eh(cx, cy) + amount * on_row(x1 as int, x2 as int, y as int, cx, cy) by {
                    assert(on_row(x1 as int, x2 as int, y as int, cx, cy) == 0);
                    assert(on_row(x1 as int, x as int, y as int, cx, cy) == 0);
                }
            }
        }
    }

    /// Adds demand along a column from row `y1` to `y2`.
    pub fn update_v(&mut self, x: i32, y1: i32, y2: i32, amount: i64)
        requires
            old(self).wf(),
            y1 < y2 ==> 0 <= y1 && y2 <= old(self).up() && 0 <= x < old(self).columns(),
            forall|y: int| y1 <= y < y2 ==> i64::MIN <= #[trigger] old(self).ev(x as int, y) + amount <= i64::MAX,
        ensures
            final(self).same_sides(old(self)),
            final(self).same_usage(old(self)),
            forall|cx: int, cy: int| old(self).has_v(cx, cy) ==> #[trigger] final(self).ev(cx, cy) == old(self).ev(cx, cy) + amount * on_column(x as int, y1 as int, y2 as int, cx, cy),
            forall|cx: int, cy: int| #[trigger] final(self).eh(cx, cy) == old(self).eh(cx, cy),
    {
        let ghost s0 = *self;
        let mut y: i32 = y1;
        assert(amount * 1 == amount && amount * 0 == 0) by (nonlinear_arith);
        while y < y2
            invariant
                s0.wf(),
                y1 <= y,
                y <= y2 || (y2 < y1 && y == y1),
                y1 < y2 ==> 0 <= y1 && y2 <= s0.up() && 0 <= x < s0.columns(),
                forall|y: int| y1 <= y < y2 ==> i64::MIN <= #[trigger] s0.ev(x as int, y) + amount <= i64::MAX,
                self.same_sides(&s0),
                self.usage_h == s0.usage_h,
                self.usage_v == s0.usage_v,
                self.h == s0.h,
                amount * 1 == amount && amount * 0 == 0,
                forall|cx: int, cy: int| s0.has_v(cx, cy) ==> #[trigger] self.ev(cx, cy) == s0.ev(cx, cy) + amount * on_column(x as int, y1 as int, y as int, cx, cy),
            decreases y2 - y,
        {
            let ghost s1 = *self;
            assert(s0.has_v(x as int, y as int));
            assert(s1.ev(x as int, y as int) == s0.ev(x as int, y as int));
            let i: usize = self.place_v(x as usize, y as usize);
            self.v[i] = self.v[i] + amount;
            proof {
                assert forall|cx: int, cy: int| s0.has_v(cx, cy) implies #[trigger] self.ev(cx, cy) == s0.ev(cx, cy) + amount * on_column(x as int, y1 as int, y + 1, cx, cy) by {
                    assert(s1.ev(cx, cy) == s0.ev(cx, cy) + amount * on_column(x as int, y1 as int, y as int, cx, cy));
                    lemma_at2(cx, cy, s0.columns(), s0.up());
                    if at2(cx, cy, s0.columns()) == i {
                        lemma_at2_injective(cx, cy, x as int, y as int, s0.columns(), s0.up());
                    }
                }
            }
            y += 1;
        }
        proof {
            if y2 < y1 {
                assert forall|cx: int, cy: int| s0.has_v(cx, cy) implies #[trigger] self.ev(cx, cy) == s0.ev(cx, cy) + amount * on_column(x as int, y1 as int, y2 as int, cx, cy) by {
                    assert(on_column(x as int, y1 as int, y2 as int, cx, cy) == 0);
                    assert(on_column(x as int, y1 as int, y as int, cx, cy) == 0);
                }
            }
        }
    }

    /// Adds the estimate to the committed demand, on every edge. The estimate stays as it is.
    pub fn add_est_usage_to_usage(&mut self)
        requires
            old(self).wf(),
            old(self).within(0x4000_0000_0000_0000 - 1),
            old(self).usage_within(0x4000_0000_0000_0000),
        ensures
            final(self).same_sides(old(self)),
            final(self).same_estimate(old(self)),
            forall|x: int, y: int| old(self).has_h(x, y) ==> #[trigger] final(self).uh(x, y) == old(self).uh(x, y) + old(self).eh(x, y),
            forall|x: int, y: int| old(self).has_v(x, y) ==> #[trigger] final(self).uv(x, y) == old(self).uv(x, y) + old(self).ev(x, y),
    {
        let ghost s0 = *self;
        let mut y: usize = 0;
        let across: usize = self.h_columns();
        let up: usize = self.v_rows();
        while y < self.y_grids
            invariant
                s0.wf(),
                s0.within(0x4000_0000_0000_0000 - 1),
                s0.usage_within(0x4000_0000_0000_0000),
                self.same_sides(&s0),
                self.h == s0.h,
                self.v == s0.v,
                self.usage_v == s0.usage_v,
                across == s0.across(),
                y <= s0.rows(),
                forall|cx: int, cy: int| s0.has_h(cx, cy) ==> #[trigger] self.uh(cx, cy) == s0.uh(cx, cy) + (if cy < y { s0.eh(cx, cy) } else { 0 }),
            decreases s0.rows() - y,
        {
            let mut x: usize = 0;
            while x < across
                invariant
                    s0.wf(),
                    s0.within(0x4000_0000_0000_0000 - 1),
                    s0.usage_within(0x4000_0000_0000_0000),
                    self.same_sides(&s0),
                    self.h == s0.h,
                    self.v == s0.v,
                    self.usage_v == s0.usage_v,
                    across == s0.across(),
                    y < s0.rows(),
                    x <= across,
                    forall|cx: int, cy: int| s0.has_h(cx, cy) ==> #[trigger] self.uh(cx, cy) == s0.uh(cx, cy) + (if cy < y || (cy == y && cx < x) { s0.eh(cx, cy) } else { 0 }),
                decreases across - x,
            {
                let ghost s1 = *self;
                assert(s0.has_h(x as int, y as int));
                assert(s1.uh(x as int, y as int) == s0.uh(x as int, y as int));
                let i: usize = self.place_h(x, y);
                assert(self.h@[i as int] == s0.eh(x as int, y as int));
                assert(self.usage_h@[i as int] == s1.uh(x as int, y as int));
                self.usage_h[i] = self.usage_h[i] + self.h[i];
                proof {
                    assert forall|cx: int, cy: int| s0.has_h(cx, cy) implies #[trigger] self.uh(cx, cy) == s0.uh(cx, cy) + (if cy < y || (cy == y && cx < x + 1) { s0.eh(cx, cy) } else { 0 }) by {
                        assert(s1.uh(cx, cy) == s0.uh(cx, cy) + (if cy < y || (cy == y && cx < x) { s0.eh(cx, cy) } else { 0 }));
                        lemma_at2(cx, cy, s0.across(), s0.rows());
                        if at2(cx, cy, s0.across()) == i {
                            lemma_at2_injective(cx, cy, x as int, y as int, s0.across(), s0.rows());
                        }
                    }
                }
                x += 1;
            }
            y += 1;
        }
        let ghost s2 = *self;
        y = 0;
        while y < up
            invariant
                s0.wf(),
                s0.within(0x4000_0000_0000_0000 - 1),
                s0.usage_within(0x4000_0000_0000_0000),
                self.same_sides(&s0),
                self.h == s0.h,
                self.v == s0.v,
                s2.usage_v == s0.usage_v,
                s2.same_sides(&s0),
                self.usage_h == s2.usage_h,
                up == s0.up(),
                y <= up,
                forall|cx: int, cy: int| s0.has_v(cx, cy) ==> #[trigger] self.uv(cx, cy) == s0.uv(cx, cy) + (if cy < y { s0.ev(cx, cy) } else { 0 }),
            decreases up - y,
        {
            let mut x: usize = 0;
            while x < self.x_grids
                invariant
                    s0.wf(),
                    s0.within(0x4000_0000_0000_0000 - 1),
                    s0.usage_within(0x4000_0000_0000_0000),
                    self.same_sides(&s0),
                    self.h == s0.h,
                    self.v == s0.v,
                    self.usage_h == s2.usage_h,
                    up == s0.up(),
                    y < up,
                    x <= s0.columns(),
                    forall|cx: int, cy: int| s0.has_v(cx, cy) ==> #[trigger] self.uv(cx, cy) == s0.uv(cx, cy) + (if cy < y || (cy == y && cx < x) { s0.ev(cx, cy) } else { 0 }),
                decreases s0.columns() - x,
            {
                let ghost s1 = *self;
                assert(s0.has_v(x as int, y as int));
                assert(s1.uv(x as int, y as int) == s0.uv(x as int, y as int));
                let i: usize = self.place_v(x, y);
                assert(self.v@[i as int] == s0.ev(x as int, y as int));
                assert(self.usage_v@[i as int] == s1.uv(x as int, y as int));
                self.usage_v[i] = self.usage_v[i] + self.v[i];
                proof {
                    assert forall|cx: int, cy: int| s0.has_v(cx, cy) implies #[trigger] self.uv(cx, cy) == s0.uv(cx, cy) + (if cy < y || (cy == y && cx < x + 1) { s0.ev(cx, cy) } else { 0 }) by {
                        assert(s1.uv(cx, cy) == s0.uv(cx, cy) + (if cy < y || (cy == y && cx < x) { s0.ev(cx, cy) } else { 0 }));
                        lemma_at2(cx, cy, s0.columns(), s0.up());
                        if at2(cx, cy, s0.columns()) == i {
                            lemma_at2_injective(cx, cy, x as int, y as int, s0.columns(), s0.up());
                        }
                    }
                }
                x += 1;
            }
            y += 1;
        }
        proof {
            assert forall|x: int, y: int| s0.has_h(x, y) implies #[trigger] self.uh(x, y) == s0.uh(x, y) + s0.eh(x, y) by {
                assert(s2.uh(x, y) == self.uh(x, y));
            }
        }
    }
}

// ---- segments ----

/// Whether both ends of a segment are cells of the grid, in the order of x.
pub open spec fn segment_fits(g: EstimateGrid, s: Segment) -> bool {
    &&& 0 <= s.x1 <= s.x2 < g.columns()
    &&& 0 <= s.y1 < g.rows()
    &&& 0 <= s.y2 < g.rows()
}

/// The lower of a segment's rows.
pub open spec fn low(s: Segment) -> int {
    least(s.y1 as int, s.y2 as int)
}

/// The higher of a segment's rows.
pub open spec fn high(s: Segment) -> int {
    most(s.y1 as int, s.y2 as int)
}

/// What the estimate of a segment charges a horizontal edge, in halves: nothing for an upright
/// segment, the full cost on the row of a level one, and half the cost on the rows of both ends of a
/// slanted one.
pub open spec fn estimate_h(s: Segment, cx: int, cy: int) -> int {
    if s.x1 == s.x2 {
        0
    } else if s.y1 == s.y2 {
        2 * s.edge_cost * on_row(s.x1 as int, s.x2 as int, s.y1 as int, cx, cy)
    } else {
        s.edge_cost * on_row(s.x1 as int, s.x2 as int, s.y1 as int, cx, cy) + s.edge_cost * on_row(s.x1 as int, s.x2 as int, s.y2 as int, cx, cy)
    }
}

/// What the estimate of a segment charges a vertical edge, in halves.
pub open spec fn estimate_v(s: Segment, cx: int, cy: int) -> int {
    if s.x1 == s.x2 {
        2 * s.edge_cost * on_column(s.x1 as int, low(s), high(s), cx, cy)
    } else if s.y1 == s.y2 {
        0
    } else {
        s.edge_cost * on_column(s.x1 as int, low(s), high(s), cx, cy) + s.edge_cost * on_column(s.x2 as int, low(s), high(s), cx, cy)
    }
}

/// Which way a slanted segment bends.
#[derive(Debug, Clone, Copy, PartialEq, Eq, Structural)]
pub enum LShape {
    /// Up the first column, then across the far row.
    YFirst,
    /// Across the near row, then up the far column.
    XFirst,
}

/// What an L charges a horizontal edge, in halves: the full cost on the row that it takes.
pub open spec fn l_h(s: Segment, shape: LShape, cx: int, cy: int) -> int {
    2 * s.edge_cost * on_row(s.x1 as int, s.x2 as int, (if shape == LShape::XFirst { s.y1 } else { s.y2 }) as int, cx, cy)
}

/// What an L charges a vertical edge, in halves: the full cost on the column that it takes.
pub open spec fn l_v(s: Segment, shape: LShape, cx: int, cy: int) -> int {
    2 * s.edge_cost * on_column((if shape == LShape::XFirst { s.x2 } else { s.x1 }) as int, low(s), high(s), cx, cy)
}

/// Whether a grid is another with a charge on its edges: the estimates grow by `dh` and `dv`, and
/// the committed demand stays.
pub open spec fn charged(a: EstimateGrid, b: EstimateGrid, dh: spec_fn(int, int) -> int, dv: spec_fn(int, int) -> int) -> bool {
    &&& b.same_sides(&a)
    &&& b.same_usage(&a)
    &&& forall|x: int, y: int| a.has_h(x, y) ==> #[trigger] b.eh(x, y) == a.eh(x, y) + dh(x, y)
    &&& forall|x: int, y: int| a.has_v(x, y) ==> #[trigger] b.ev(x, y) == a.ev(x, y) + dv(x, y)
}

/// The largest distance from zero from which a segment can still be charged.
pub const ROOM: i64 = 0x7fff_ffff_ffff_0000;

/// Charges one segment's demand: the full cost along an upright or a level segment, and half the
/// cost to each of the two columns and the two rows that a slanted one may take.
pub fn estimate_one_seg(grid: &mut EstimateGrid, seg: &Segment)
    requires
        old(grid).wf(),
        segment_fits(*old(grid), *seg),
        old(grid).within(ROOM as int),
    ensures
        charged(*old(grid), *final(grid), |x: int, y: int| estimate_h(*seg, x, y), |x: int, y: int| estimate_v(*seg, x, y)),
        final(grid).within(ROOM + 1024),
{
    let cost: i64 = seg.edge_cost as i64;
    let (ymin, ymax) = if seg.y1 < seg.y2 { (seg.y1, seg.y2) } else { (seg.y2, seg.y1) };
    if seg.x1 == seg.x2 {
        grid.update_v(seg.x1, ymin, ymax, 2 * cost);
    } else if seg.y1 == seg.y2 {
        grid.update_h(seg.x1, seg.x2, seg.y1, 2 * cost);
    } else {
        proof {
            lemma_small_charge(*seg);
        }
        grid.update_v(seg.x1, ymin, ymax, cost);
        grid.update_v(seg.x2, ymin, ymax, cost);
        grid.update_h(seg.x1, seg.x2, seg.y1, cost);
        grid.update_h(seg.x1, seg.x2, seg.y2, cost);
    }
    proof {
        lemma_small_charge(*seg);
    }
}

proof fn lemma_small_charge(s: Segment)
    ensures
        s.edge_cost * 1 == s.edge_cost,
        s.edge_cost * 0 == 0,
        2 * s.edge_cost * 1 == 2 * s.edge_cost,
        2 * s.edge_cost * 0 == 0,
        (-s.edge_cost) * 1 == -s.edge_cost,
        (-s.edge_cost) * 0 == 0,
        (-2 * s.edge_cost) * 1 == -2 * s.edge_cost,
        (-2 * s.edge_cost) * 0 == 0,
{
    assert(s.edge_cost * 1 == s.edge_cost && s.edge_cost * 0 == 0) by (nonlinear_arith);
    assert(2 * s.edge_cost * 1 == 2 * s.edge_cost && 2 * s.edge_cost * 0 == 0) by (nonlinear_arith);
    assert((-s.edge_cost) * 1 == -s.edge_cost && (-s.edge_cost) * 0 == 0) by (nonlinear_arith);
    assert((-2 * s.edge_cost) * 1 == -2 * s.edge_cost && (-2 * s.edge_cost) * 0 == 0) by (nonlinear_arith);
}

/// Whether a segment chooses a bend at all: only a slanted one does. A straight one is its own route.
pub fn needs_l_route(seg: &Segment) -> (r: bool)
    ensures
        r == (seg.x1 != seg.x2 && seg.y1 != seg.y2),
{
    seg.x1 != seg.x2 && seg.y1 != seg.y2
}

/// What the estimates of the first `n` segments of a list charge a horizontal edge.
pub open spec fn list_h(segs: Seq<Segment>, n: int, x: int, y: int) -> int
    decreases n,
{
    if n <= 0 { 0 } else { list_h(segs, n - 1, x, y) + estimate_h(segs[n - 1], x, y) }
}

/// What the estimates of the first `n` segments of a list charge a vertical edge.
pub open spec fn list_v(segs: Seq<Segment>, n: int, x: int, y: int) -> int
    decreases n,
{
    if n <= 0 { 0 } else { list_v(segs, n - 1, x, y) + estimate_v(segs[n - 1], x, y) }
}

/// What the estimates of the first `n` nets charge a horizontal edge.
pub open spec fn nets_h(nets: Seq<Vec<Segment>>, n: int, x: int, y: int) -> int
    decreases n,
{
    if n <= 0 { 0 } else { nets_h(nets, n - 1, x, y) + list_h(nets[n - 1]@, nets[n - 1]@.len() as int, x, y) }
}

/// What the estimates of the first `n` nets charge a vertical edge.
pub open spec fn nets_v(nets: Seq<Vec<Segment>>, n: int, x: int, y: int) -> int
    decreases n,
{
    if n <= 0 { 0 } else { nets_v(nets, n - 1, x, y) + list_v(nets[n - 1]@, nets[n - 1]@.len() as int, x, y) }
}

/// The number of segments of the first `n` nets.
pub open spec fn segment_count(nets: Seq<Vec<Segment>>, n: int) -> int
    decreases n,
{
    if n <= 0 { 0 } else { segment_count(nets, n - 1) + nets[n - 1]@.len() }
}

proof fn lemma_counts(nets: Seq<Vec<Segment>>, a: int, b: int)
    requires
        0 <= a <= b,
    ensures
        0 <= segment_count(nets, a) <= segment_count(nets, b),
    decreases b,
{
    if a < b {
        lemma_counts(nets, a, b - 1);
    } else if a > 0 {
        lemma_counts(nets, a - 1, a - 1);
    }
}

/// The first pass over every net's segments: each of them is charged before any chooses its bend.
pub fn estimate_all(grid: &mut EstimateGrid, nets: &[Vec<Segment>])
    requires
        old(grid).wf(),
        forall|n: int, k: int| 0 <= n < nets@.len() && 0 <= k < nets@[n]@.len() ==> segment_fits(*old(grid), #[trigger] nets@[n]@[k]),
        old(grid).within(ROOM - 1024 * segment_count(nets@, nets@.len() as int)),
    ensures
        charged(
            *old(grid),
            *final(grid),
            |x: int, y: int| nets_h(nets@, nets@.len() as int, x, y),
            |x: int, y: int| nets_v(nets@, nets@.len() as int, x, y),
        ),
{
    let ghost g0 = *grid;
    let ghost total = segment_count(nets@, nets@.len() as int);
    let mut n: usize = 0;
    while n < nets.len()
        invariant
            n <= nets@.len(),
            g0.wf(),
            total == segment_count(nets@, nets@.len() as int),
            g0.within(ROOM - 1024 * total),
            forall|n: int, k: int| 0 <= n < nets@.len() && 0 <= k < nets@[n]@.len() ==> segment_fits(g0, #[trigger] nets@[n]@[k]),
            charged(g0, *grid, |x: int, y: int| nets_h(nets@, n as int, x, y), |x: int, y: int| nets_v(nets@, n as int, x, y)),
            grid.within(ROOM - 1024 * (total - segment_count(nets@, n as int))),
        decreases nets@.len() - n,
    {
        proof {
            lemma_counts(nets@, n + 1, nets@.len() as int);
            lemma_counts(nets@, n as int, n as int);
        }
        let ghost g1 = *grid;
        let mut k: usize = 0;
        while k < nets[n].len()
            invariant
                n < nets@.len(),
                k <= nets@[n as int]@.len(),
                g0.wf(),
                g1.same_sides(&g0),
                total == segment_count(nets@, nets@.len() as int),
                segment_count(nets@, n as int) + nets@[n as int]@.len() <= total,
                forall|n: int, k: int| 0 <= n < nets@.len() && 0 <= k < nets@[n]@.len() ==> segment_fits(g0, #[trigger] nets@[n]@[k]),
                charged(
                    g1,
                    *grid,
                    |x: int, y: int| list_h(nets@[n as int]@, k as int, x, y),
                    |x: int, y: int| list_v(nets@[n as int]@, k as int, x, y),
                ),
                grid.within(ROOM - 1024 * (total - segment_count(nets@, n as int) - k)),
            decreases nets@[n as int]@.len() - k,
        {
            assert(segment_fits(g0, nets@[n as int]@[k as int]));
            let ghost g2 = *grid;
            let seg = nets[n][k];
            estimate_one_seg(grid, &seg);
            proof {
                lemma_small_charge(seg);
                assert(grid.within(ROOM - 1024 * (total - segment_count(nets@, n as int) - (k + 1)))) by {
                    assert forall|x: int, y: int| grid.has_h(x, y) implies -(ROOM - 1024 * (total - segment_count(nets@, n as int) - (k + 1))) <= #[trigger] grid.eh(x, y) <= ROOM - 1024 * (total
                        - segment_count(nets@, n as int) - (k + 1)) by {
                        assert(grid.eh(x, y) == g2.eh(x, y) + estimate_h(seg, x, y));
                    }
                    assert forall|x: int, y: int| grid.has_v(x, y) implies -(ROOM - 1024 * (total - segment_count(nets@, n as int) - (k + 1))) <= #[trigger] grid.ev(x, y) <= ROOM - 1024 * (total
                        - segment_count(nets@, n as int) - (k + 1)) by {
                        assert(grid.ev(x, y) == g2.ev(x, y) + estimate_v(seg, x, y));
                    }
                }
                assert forall|x: int, y: int| g1.has_h(x, y) implies #[trigger] grid.eh(x, y) == g1.eh(x, y) + list_h(nets@[n as int]@, k + 1, x, y) by {
                    assert(grid.eh(x, y) == g2.eh(x, y) + estimate_h(seg, x, y));
                    assert(g2.eh(x, y) == g1.eh(x, y) + list_h(nets@[n as int]@, k as int, x, y));
                }
                assert forall|x: int, y: int| g1.has_v(x, y) implies #[trigger] grid.ev(x, y) == g1.ev(x, y) + list_v(nets@[n as int]@, k + 1, x, y) by {
                    assert(grid.ev(x, y) == g2.ev(x, y) + estimate_v(seg, x, y));
                    assert(g2.ev(x, y) == g1.ev(x, y) + list_v(nets@[n as int]@, k as int, x, y));
                }
            }
            k += 1;
        }
        proof {
            assert forall|x: int, y: int| g0.has_h(x, y) implies #[trigger] grid.eh(x, y) == g0.eh(x, y) + nets_h(nets@, n + 1, x, y) by {
                assert(g1.eh(x, y) == g0.eh(x, y) + nets_h(nets@, n as int, x, y));
                assert(grid.eh(x, y) == g1.eh(x, y) + list_h(nets@[n as int]@, nets@[n as int]@.len() as int, x, y));
            }
            assert forall|x: int, y: int| g0.has_v(x, y) implies #[trigger] grid.ev(x, y) == g0.ev(x, y) + nets_v(nets@, n + 1, x, y) by {
                assert(g1.ev(x, y) == g0.ev(x, y) + nets_v(nets@, n as int, x, y));
                assert(grid.ev(x, y) == g1.ev(x, y) + list_v(nets@[n as int]@, nets@[n as int]@.len() as int, x, y));
            }
        }
        n += 1;
    }
}

// ---- bends ----

/// Nine tenths in single precision, in units of the twenty-fourth power of one half.
pub const CAPACITY_LOWER_BOUND_FRACTION: u64 = 15_099_494;

/// The part of a capacity below which congestion costs nothing, in units of the twenty-fourth power
/// of one half: nine tenths of it, in single precision.
pub open spec fn lower_bound(capacity: u32) -> int {
    to_single((CAPACITY_LOWER_BOUND_FRACTION * to_single(capacity as nat)) as nat)
}

/// The part of a capacity below which congestion costs nothing, in units of the twenty-fourth power
/// of one half.
pub fn capacity_lower_bound(capacity: u32) -> (r: i64)
    ensures
        r == lower_bound(capacity),
        0 <= r <= 0x400_0000_0000_0000,
{
    let c: u64 = single_of(capacity as u64);
    let r: u64 = single_of(CAPACITY_LOWER_BOUND_FRACTION * c);
    r as i64
}

/// The congestion cost of one edge, in units of the twenty-fourth power of one half: its demand, in
/// halves, and its blockage above the lower bound, and nothing below it.
pub fn congestion_cost(demand: i64, blockage: u16, lower_bound: i64) -> (r: i64)
    requires
        -0x10_0000_0000 <= demand <= 0x10_0000_0000,
        0 <= lower_bound <= 0x400_0000_0000_0000,
    ensures
        r == most(demand * 0x80_0000 + blockage * 0x100_0000 - lower_bound, 0),
{
    let over: i64 = demand * 0x80_0000 + (blockage as i64) * 0x100_0000 - lower_bound;
    if over > 0 { over } else { 0 }
}

/// Which way a slanted segment bends: up first only where that costs strictly less.
pub fn choose_l_shape(cost_y_first: i64, cost_x_first: i64) -> (r: LShape)
    ensures
        r == (if cost_y_first < cost_x_first { LShape::YFirst } else { LShape::XFirst }),
{
    if cost_y_first < cost_x_first { LShape::YFirst } else { LShape::XFirst }
}

/// What committing a bend adds to a horizontal edge, in halves: the other half to the row taken, and
/// the half back from the other.
pub open spec fn commit_h(s: Segment, shape: LShape, cx: int, cy: int) -> int {
    let (taken, left) = if shape == LShape::XFirst { (s.y1, s.y2) } else { (s.y2, s.y1) };
    s.edge_cost * on_row(s.x1 as int, s.x2 as int, taken as int, cx, cy) + (-s.edge_cost) * on_row(s.x1 as int, s.x2 as int, left as int, cx, cy)
}

/// What committing a bend adds to a vertical edge, in halves.
pub open spec fn commit_v(s: Segment, shape: LShape, cx: int, cy: int) -> int {
    let (taken, left) = if shape == LShape::XFirst { (s.x2, s.x1) } else { (s.x1, s.x2) };
    s.edge_cost * on_column(taken as int, low(s), high(s), cx, cy) + (-s.edge_cost) * on_column(left as int, low(s), high(s), cx, cy)
}

/// Commits a bend: the path taken gets the other half of the cost, and the other path gives its half
/// back.
pub fn commit_l_shape(grid: &mut EstimateGrid, seg: &Segment, shape: LShape)
    requires
        old(grid).wf(),
        segment_fits(*old(grid), *seg),
        old(grid).within(ROOM as int),
    ensures
        charged(*old(grid), *final(grid), |x: int, y: int| commit_h(*seg, shape, x, y), |x: int, y: int| commit_v(*seg, shape, x, y)),
        final(grid).within(ROOM + 1024),
{
    let half: i64 = seg.edge_cost as i64;
    let (ymin, ymax) = if seg.y1 < seg.y2 { (seg.y1, seg.y2) } else { (seg.y2, seg.y1) };
    proof {
        lemma_small_charge(*seg);
    }
    match shape {
        LShape::YFirst => {
            grid.update_v(seg.x1, ymin, ymax, half);
            grid.update_v(seg.x2, ymin, ymax, -half);
            grid.update_h(seg.x1, seg.x2, seg.y2, half);
            grid.update_h(seg.x1, seg.x2, seg.y1, -half);
        },
        LShape::XFirst => {
            grid.update_h(seg.x1, seg.x2, seg.y1, half);
            grid.update_h(seg.x1, seg.x2, seg.y2, -half);
            grid.update_v(seg.x2, ymin, ymax, half);
            grid.update_v(seg.x1, ymin, ymax, -half);
        },
    }
}

/// The estimate of a slanted segment and the commitment of its bend together charge the path taken in
/// full, and the other path nothing.
pub proof fn a_committed_bend_is_charged_in_full(s: Segment, shape: LShape, x: int, y: int)
    requires
        s.x1 != s.x2,
        s.y1 != s.y2,
    ensures
        estimate_h(s, x, y) + commit_h(s, shape, x, y) == l_h(s, shape, x, y),
        estimate_v(s, x, y) + commit_v(s, shape, x, y) == l_v(s, shape, x, y),
{
    lemma_small_charge(s);
}

// ---- runaway demand ----

/// An edge whose committed demand, in halves, is past what the check allows.
#[derive(Debug, Clone, Copy, PartialEq, Eq, Structural)]
pub struct UsageViolation {
    pub x: usize,
    pub y: usize,
    pub horizontal: bool,
    pub usage: i64,
    pub limit: i32,
}

/// How many times its capacity an edge may carry.
pub const MAX_USAGE_MULTIPLIER: i32 = 100;

/// The violations among the first `n` edges, row by row, of a width.
pub open spec fn violations_h(g: EstimateGrid, limit: i32, n: int) -> Seq<UsageViolation>
    decreases n,
{
    if n <= 0 {
        Seq::empty()
    } else {
        let s = violations_h(g, limit, n - 1);
        let (x, y) = ((n - 1) % g.across(), (n - 1) / g.across());
        if g.uh(x, y) > 2 * limit {
            s.push(UsageViolation { x: x as usize, y: y as usize, horizontal: true, usage: g.uh(x, y) as i64, limit })
        } else {
            s
        }
    }
}

/// The violations among the first `n` vertical edges, row by row.
pub open spec fn violations_v(g: EstimateGrid, limit: i32, n: int) -> Seq<UsageViolation>
    decreases n,
{
    if n <= 0 {
        Seq::empty()
    } else {
        let s = violations_v(g, limit, n - 1);
        let (x, y) = ((n - 1) % g.columns(), (n - 1) / g.columns());
        if g.uv(x, y) > 2 * limit {
            s.push(UsageViolation { x: x as usize, y: y as usize, horizontal: false, usage: g.uv(x, y) as i64, limit })
        } else {
            s
        }
    }
}

proof fn lemma_row_major(x: int, y: int, w: int)
    requires
        0 <= x < w,
        0 <= y,
    ensures
        (y * w + x) % w == x,
        (y * w + x) / w == y,
{
    assert((y * w + x) / w == y && (y * w + x) % w == x) by (nonlinear_arith)
        requires
            0 <= x < w,
            0 <= y,
    ;
}

/// The edges whose committed demand is more than a hundred times their direction's capacity: the
/// horizontal ones row by row, then the vertical ones.
pub fn check_2d_edges_usage(grid: &EstimateGrid, h_capacity: i32, v_capacity: i32) -> (out: Vec<UsageViolation>)
    requires
        grid.wf(),
        i32::MIN <= MAX_USAGE_MULTIPLIER * h_capacity <= i32::MAX,
        i32::MIN <= MAX_USAGE_MULTIPLIER * v_capacity <= i32::MAX,
    ensures
        out@ == violations_h(*grid, (MAX_USAGE_MULTIPLIER * h_capacity) as i32, grid.rows() * grid.across()) + violations_v(
            *grid,
            (MAX_USAGE_MULTIPLIER * v_capacity) as i32,
            grid.up() * grid.columns(),
        ),
{
    let mut out: Vec<UsageViolation> = Vec::new();
    let h_limit: i32 = MAX_USAGE_MULTIPLIER * h_capacity;
    let v_limit: i32 = MAX_USAGE_MULTIPLIER * v_capacity;
    let across: usize = grid.h_columns();
    let up: usize = grid.v_rows();
    let mut y: usize = 0;
    assert(0 * grid.across() == 0) by (nonlinear_arith);
    while y < grid.y_grids
        invariant
            grid.wf(),
            across == grid.across(),
            y <= grid.rows(),
            out@ == violations_h(*grid, h_limit, y * grid.across()),
        decreases grid.rows() - y,
    {
        let mut x: usize = 0;
        while x < across
            invariant
                grid.wf(),
                across == grid.across(),
                y < grid.rows(),
                x <= across,
                out@ == violations_h(*grid, h_limit, y * grid.across() + x),
            decreases across - x,
        {
            let usage: i64 = grid.usage_h(x, y);
            proof {
                lemma_row_major(x as int, y as int, grid.across());
                lemma_at2(x as int, y as int, grid.across(), grid.rows());
            }
            if usage > 2 * (h_limit as i64) {
                out.push(UsageViolation { x, y, horizontal: true, usage, limit: h_limit });
            }
            x += 1;
        }
        assert((y + 1) * grid.across() == y * grid.across() + grid.across()) by (nonlinear_arith);
        y += 1;
    }
    let ghost first = out@;
    y = 0;
    assert(0 * grid.columns() == 0) by (nonlinear_arith);
    assert(out@ =~= first + violations_v(*grid, v_limit, 0));
    while y < up
        invariant
            grid.wf(),
            up == grid.up(),
            y <= up,
            out@ == first + violations_v(*grid, v_limit, y * grid.columns()),
        decreases up - y,
    {
        let mut x: usize = 0;
        while x < grid.x_grids
            invariant
                grid.wf(),
                up == grid.up(),
                y < up,
                x <= grid.columns(),
                out@ == first + violations_v(*grid, v_limit, y * grid.columns() + x),
            decreases grid.columns() - x,
        {
            let usage: i64 = grid.usage_v(x, y);
            proof {
                lemma_row_major(x as int, y as int, grid.columns());
                lemma_at2(x as int, y as int, grid.columns(), grid.up());
            }
            if usage > 2 * (v_limit as i64) {
                out.push(UsageViolation { x, y, horizontal: false, usage, limit: v_limit });
                assert(out@ =~= first + violations_v(*grid, v_limit, y * grid.columns() + x + 1));
            }
            x += 1;
        }
        assert((y + 1) * grid.columns() == y * grid.columns() + grid.columns()) by (nonlinear_arith);
        y += 1;
    }
    out
}

/// Across, a net is estimated at the sum of its segments' estimates.
pub proof fn the_estimate_of_a_net_is_that_of_its_segments_across(segs: Seq<Segment>, x: int, y: int, n: int)
    requires
        0 <= n,
    ensures
        list_h(segs, n, x, y) == sum_of(
            n,
            |k: int| estimate_h(segs[k], x, y),
        ),
    decreases n,
{
    let f = |k: int| estimate_h(segs[k], x, y);
    if n > 0 {
        the_estimate_of_a_net_is_that_of_its_segments_across(segs, x, y, n - 1);
        lemma_sum_next(n - 1, f);
    } else {
        lemma_sum_none(f);
    }
}

/// Along, a net is estimated at the sum of its segments' estimates.
pub proof fn the_estimate_of_a_net_is_that_of_its_segments_along(segs: Seq<Segment>, x: int, y: int, n: int)
    requires
        0 <= n,
    ensures
        list_v(segs, n, x, y) == sum_of(
            n,
            |k: int| estimate_v(segs[k], x, y),
        ),
    decreases n,
{
    let f = |k: int| estimate_v(segs[k], x, y);
    if n > 0 {
        the_estimate_of_a_net_is_that_of_its_segments_along(segs, x, y, n - 1);
        lemma_sum_next(n - 1, f);
    } else {
        lemma_sum_none(f);
    }
}

/// Across, the estimate of an edge is the sum over the nets.
pub proof fn the_estimate_is_that_of_all_nets_across(nets: Seq<Vec<Segment>>, x: int, y: int, n: int)
    requires
        0 <= n,
    ensures
        nets_h(nets, n, x, y) == sum_of(
            n,
            |k: int| list_h(nets[k]@, nets[k]@.len() as int, x, y),
        ),
    decreases n,
{
    let f = |k: int| list_h(nets[k]@, nets[k]@.len() as int, x, y);
    if n > 0 {
        the_estimate_is_that_of_all_nets_across(nets, x, y, n - 1);
        lemma_sum_next(n - 1, f);
    } else {
        lemma_sum_none(f);
    }
}

/// Along, the estimate of an edge is the sum over the nets.
pub proof fn the_estimate_is_that_of_all_nets_along(nets: Seq<Vec<Segment>>, x: int, y: int, n: int)
    requires
        0 <= n,
    ensures
        nets_v(nets, n, x, y) == sum_of(
            n,
            |k: int| list_v(nets[k]@, nets[k]@.len() as int, x, y),
        ),
    decreases n,
{
    let f = |k: int| list_v(nets[k]@, nets[k]@.len() as int, x, y);
    if n > 0 {
        the_estimate_is_that_of_all_nets_along(nets, x, y, n - 1);
        lemma_sum_next(n - 1, f);
    } else {
        lemma_sum_none(f);
    }
}

/// The edges across that are reported are those whose usage, held in halves, is above twice the
/// limit, row by row.
pub proof fn an_edge_across_is_reported_where_it_is_used_too_much(g: EstimateGrid, limit: i32, n: int)
    requires
        0 <= n,
    ensures
        violations_h(g, limit, n) == all_of(
            n,
            |k: int| if g.uh(k % g.across(), k / g.across()) > 2 * limit { seq![UsageViolation { x: (k % g.across()) as usize, y: (k / g.across()) as usize, horizontal: true, usage: g.uh(k % g.across(), k / g.across()) as i64, limit }] } else { Seq::empty() },
        ),
    decreases n,
{
    let f = |k: int| if g.uh(k % g.across(), k / g.across()) > 2 * limit { seq![UsageViolation { x: (k % g.across()) as usize, y: (k / g.across()) as usize, horizontal: true, usage: g.uh(k % g.across(), k / g.across()) as i64, limit }] } else { Seq::empty() };
    if n > 0 {
        an_edge_across_is_reported_where_it_is_used_too_much(g, limit, n - 1);
        lemma_all_next(n - 1, f);
    } else {
        lemma_all_none(f);
    }
    assert(violations_h(g, limit, n) =~= all_of(n, f));
}

/// The edges along that are reported are those whose usage, held in halves, is above twice the
/// limit, row by row.
pub proof fn an_edge_along_is_reported_where_it_is_used_too_much(g: EstimateGrid, limit: i32, n: int)
    requires
        0 <= n,
    ensures
        violations_v(g, limit, n) == all_of(
            n,
            |k: int| if g.uv(k % g.columns(), k / g.columns()) > 2 * limit { seq![UsageViolation { x: (k % g.columns()) as usize, y: (k / g.columns()) as usize, horizontal: false, usage: g.uv(k % g.columns(), k / g.columns()) as i64, limit }] } else { Seq::empty() },
        ),
    decreases n,
{
    let f = |k: int| if g.uv(k % g.columns(), k / g.columns()) > 2 * limit { seq![UsageViolation { x: (k % g.columns()) as usize, y: (k / g.columns()) as usize, horizontal: false, usage: g.uv(k % g.columns(), k / g.columns()) as i64, limit }] } else { Seq::empty() };
    if n > 0 {
        an_edge_along_is_reported_where_it_is_used_too_much(g, limit, n - 1);
        lemma_all_next(n - 1, f);
    } else {
        lemma_all_none(f);
    }
    assert(violations_v(g, limit, n) =~= all_of(n, f));
}

/// An estimate is half of each way: the two bends of a slanted segment together charge every edge twice
/// what it is estimated at, and the bends of a segment lie on the sides of its box.
pub proof fn an_estimate_is_half_of_each_bend(s: Segment, x: int, y: int)
    requires
        s.x1 != s.x2,
        s.y1 != s.y2,
    ensures
        l_h(s, LShape::XFirst, x, y) + l_h(s, LShape::YFirst, x, y) == 2 * estimate_h(s, x, y),
        l_v(s, LShape::XFirst, x, y) + l_v(s, LShape::YFirst, x, y) == 2 * estimate_v(s, x, y),
        y != s.y1 && y != s.y2 ==> estimate_h(s, x, y) == 0,
        x != s.x1 && x != s.x2 ==> estimate_v(s, x, y) == 0,
        s.x1 <= x < s.x2 && (y == s.y1 || y == s.y2) ==> estimate_h(s, x, y) == s.edge_cost,
        low(s) <= y < high(s) && (x == s.x1 || x == s.x2) ==> estimate_v(s, x, y) == s.edge_cost,
{
    lemma_small_charge(s);
}

} // verus!
