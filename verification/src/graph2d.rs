//! The plane graph that the pattern-routing stages share: the demand, the edges in use and the
//! capacities.

use vstd::prelude::*;

use crate::estimate::{on_column, on_row, EstimateGrid};
use crate::grids::{at2, lemma_at2};

verus! {

/// The order of cells: by column, then by row.
pub open spec fn before(a: (i32, i32), b: (i32, i32)) -> bool {
    a.0 < b.0 || (a.0 == b.0 && a.1 < b.1)
}

/// A set of cells, in order.
#[derive(Debug, Clone)]
pub struct CellSet {
    pub cells: Vec<(i32, i32)>,
}

impl CellSet {
    pub open spec fn wf(&self) -> bool {
        forall|i: int, j: int| 0 <= i < j < self.cells@.len() ==> before(#[trigger] self.cells@[i], #[trigger] self.cells@[j])
    }

    pub open spec fn view(&self) -> Set<(i32, i32)> {
        self.cells@.to_set()
    }

    pub fn new() -> (s: Self)
        ensures
            s.wf(),
            s@ == Set::<(i32, i32)>::empty(),
    {
        let s = CellSet { cells: Vec::new() };
        assert(s@ =~= Set::<(i32, i32)>::empty());
        s
    }

    /// Puts a cell in its place, once.
    pub fn insert(&mut self, x: i32, y: i32)
        requires
            old(self).wf(),
        ensures
            final(self).wf(),
            final(self)@ == old(self)@.insert((x, y)),
    {
        let ghost s0 = self.cells@;
        let mut k: usize = 0;
        while k < self.cells.len() && (self.cells[k].0 < x || (self.cells[k].0 == x && self.cells[k].1 < y))
            invariant
                k <= self.cells@.len(),
                self.cells@ == s0,
                forall|i: int| 0 <= i < k ==> before(#[trigger] s0[i], (x, y)),
            decreases self.cells@.len() - k,
        {
            k += 1;
        }
        if k < self.cells.len() && self.cells[k].0 == x && self.cells[k].1 == y {
            assert(s0[k as int] == (x, y));
            assert(self@ =~= s0.to_set().insert((x, y)));
            return;
        }
        self.cells.insert(k, (x, y));
        proof {
            let s = self.cells@;
            assert forall|i: int, j: int| 0 <= i < j < s.len() implies before(#[trigger] s[i], #[trigger] s[j]) by {
                let a = if i < k { i } else { i - 1 };
                let b = if j < k { j } else { j - 1 };
                if i != k && j != k {
                    assert(before(s0[a], s0[b]));
                } else if i == k {
                    assert(s[j] == s0[j - 1]);
                    if j - 1 > k {
                        assert(before(s0[k as int], s0[j - 1]));
                    }
                }
            }
            assert forall|c: (i32, i32)| s.to_set().contains(c) <==> s0.to_set().insert((x, y)).contains(c) by {
                if s0.contains(c) {
                    let i = choose|i: int| 0 <= i < s0.len() && s0[i] == c;
                    assert(s[if i < k { i } else { i + 1 }] == c);
                }
                if s.contains(c) && c != (x, y) {
                    let i = choose|i: int| 0 <= i < s.len() && s[i] == c;
                    assert(s0[if i < k { i } else { i - 1 }] == c);
                }
                assert(s[k as int] == (x, y));
            }
            assert(self@ =~= s0.to_set().insert((x, y)));
        }
    }
}

/// A used edge as the overflow scan reads it: its demand in halves.
#[derive(Debug, Clone, Copy, PartialEq, Eq, Structural)]
pub struct UsedCell {
    pub x: i32,
    pub y: i32,
    pub est_usage: i64,
    pub cap: u16,
}

/// The demand, the edges in use and the capacities per edge.
///
/// An edge comes into use when an update's own amount is positive, whatever is charged for it, and
/// stays in use.
#[derive(Debug, Clone)]
pub struct Graph2d {
    pub est: EstimateGrid,
    pub used_h: CellSet,
    pub used_v: CellSet,
    pub cap_h: Vec<u16>,
    pub cap_v: Vec<u16>,
}

/// The cells of a row from column `x1` up to `x2`.
pub open spec fn row_cells(x1: int, x2: int, y: int) -> Set<(i32, i32)> {
    Set::new(|c: (i32, i32)| c.1 == y && x1 <= c.0 < x2)
}

/// The cells of a column from row `y1` up to `y2`.
pub open spec fn column_cells(x: int, y1: int, y2: int) -> Set<(i32, i32)> {
    Set::new(|c: (i32, i32)| c.0 == x && y1 <= c.1 < y2)
}

/// A set with more cells where an amount is positive.
pub open spec fn marked(s: Set<(i32, i32)>, amount: int, more: Set<(i32, i32)>) -> Set<(i32, i32)> {
    if amount > 0 { s.union(more) } else { s }
}

impl Graph2d {
    pub open spec fn wf(&self) -> bool {
        &&& self.est.wf()
        &&& self.used_h.wf()
        &&& self.used_v.wf()
        &&& self.cap_h@.len() == self.est.rows() * self.est.columns()
        &&& self.cap_v@.len() == self.est.rows() * self.est.columns()
        &&& forall|c: (i32, i32)| #[trigger] self.used_h@.contains(c) ==> self.est.has_h(c.0 as int, c.1 as int)
        &&& forall|c: (i32, i32)| #[trigger] self.used_v@.contains(c) ==> self.est.has_v(c.0 as int, c.1 as int)
    }

    /// A graph without demand, capacity or use.
    pub fn new(x_grid: usize, y_grid: usize) -> (g: Self)
        requires
            x_grid * y_grid <= usize::MAX,
        ensures
            g.wf(),
            g.est.x_grids == x_grid,
            g.est.y_grids == y_grid,
            g.est.within(0),
            g.est.usage_within(0),
            g.used_h@ == Set::<(i32, i32)>::empty(),
            g.used_v@ == Set::<(i32, i32)>::empty(),
            g.cap_h@ == Seq::new((y_grid * x_grid) as nat, |i: int| 0u16),
            g.cap_v@ == Seq::new((y_grid * x_grid) as nat, |i: int| 0u16),
    {
        assert(x_grid * y_grid == y_grid * x_grid) by (nonlinear_arith);
        Graph2d {
            est: EstimateGrid::new(x_grid, y_grid),
            used_h: CellSet::new(),
            used_v: CellSet::new(),
            cap_h: crate::vecs::filled(0u16, x_grid * y_grid),
            cap_v: crate::vecs::filled(0u16, x_grid * y_grid),
        }
    }

    /// Takes every edge out of use.
    pub fn clear_used(&mut self)
        requires
            old(self).wf(),
        ensures
            final(self).wf(),
            final(self).est == old(self).est,
            final(self).cap_h == old(self).cap_h,
            final(self).cap_v == old(self).cap_v,
            final(self).used_h@ == Set::<(i32, i32)>::empty(),
            final(self).used_v@ == Set::<(i32, i32)>::empty(),
    {
        self.used_h = CellSet::new();
        self.used_v = CellSet::new();
    }

    /// Charges the edges of a row, each with its own charge, and marks them used where the amount is
    /// positive.
    pub fn update_h(&mut self, x1: i32, x2: i32, y: i32, amount: i64, charges: &[i64])
        requires
            old(self).wf(),
            x1 < x2 ==> 0 <= x1 && x2 <= old(self).est.across() && 0 <= y < old(self).est.rows() && charges@.len() == x2 - x1,
            forall|x: int| x1 <= x < x2 ==> i64::MIN <= #[trigger] old(self).est.eh(x, y as int) + charges@[x - x1] <= i64::MAX,
        ensures
            final(self).wf(),
            final(self).est.same_sides(&old(self).est),
            final(self).est.same_usage(&old(self).est),
            forall|cx: int, cy: int| old(self).est.has_h(cx, cy) ==> #[trigger] final(self).est.eh(cx, cy) == old(self).est.eh(cx, cy) + (if cy == y && x1 <= cx < x2 { charges@[cx - x1] as int } else { 0 }),
            forall|cx: int, cy: int| #[trigger] final(self).est.ev(cx, cy) == old(self).est.ev(cx, cy),
            final(self).used_h@ == marked(old(self).used_h@, amount as int, row_cells(x1 as int, x2 as int, y as int)),
            final(self).used_v == old(self).used_v,
            final(self).cap_h == old(self).cap_h,
            final(self).cap_v == old(self).cap_v,
    {
        let ghost s0 = *self;
        let mut x: i32 = x1;
        assert(self.used_h@ =~= marked(s0.used_h@, amount as int, row_cells(x1 as int, x as int, y as int)));
        while x < x2
            invariant
                s0.wf(),
                self.wf(),
                x1 <= x,
                x <= x2 || (x2 < x1 && x == x1),
                x1 < x2 ==> 0 <= x1 && x2 <= s0.est.across() && 0 <= y < s0.est.rows() && charges@.len() == x2 - x1,
                forall|x: int| x1 <= x < x2 ==> i64::MIN <= #[trigger] s0.est.eh(x, y as int) + charges@[x - x1] <= i64::MAX,
                self.est.same_sides(&s0.est),
                self.est.same_usage(&s0.est),
                self.used_v == s0.used_v,
                self.cap_h == s0.cap_h,
                self.cap_v == s0.cap_v,
                forall|cx: int, cy: int| s0.est.has_h(cx, cy) ==> #[trigger] self.est.eh(cx, cy) == s0.est.eh(cx, cy) + (if cy == y && x1 <= cx < x { charges@[cx - x1] as int } else { 0 }),
                forall|cx: int, cy: int| #[trigger] self.est.ev(cx, cy) == s0.est.ev(cx, cy),
                self.used_h@ == marked(s0.used_h@, amount as int, row_cells(x1 as int, x as int, y as int)),
            decreases x2 - x,
        {
            let ghost s1 = *self;
            let c: i64 = charges[(x - x1) as usize];
            assert(s0.est.has_h(x as int, y as int));
            assert(s1.est.eh(x as int, y as int) == s0.est.eh(x as int, y as int));
            self.est.update_h(x, x + 1, y, c);
            if amount > 0 {
                self.used_h.insert(x, y);
            }
            proof {
                assert(c * 1 == c && c * 0 == 0) by (nonlinear_arith);
                assert forall|cx: int, cy: int| s0.est.has_h(cx, cy) implies #[trigger] self.est.eh(cx, cy) == s0.est.eh(cx, cy) + (if cy == y && x1 <= cx < x + 1 { charges@[cx - x1] as int } else { 0 }) by {
                    assert(self.est.eh(cx, cy) == s1.est.eh(cx, cy) + c * on_row(x as int, x + 1, y as int, cx, cy));
                }
                assert(self.used_h@ =~= marked(s0.used_h@, amount as int, row_cells(x1 as int, x + 1, y as int)));
            }
            x += 1;
        }
        proof {
            assert(self.used_h@ =~= marked(s0.used_h@, amount as int, row_cells(x1 as int, x2 as int, y as int)));
        }
    }

    /// Charges the edges of a column, each with its own charge, and marks them used where the amount
    /// is positive.
    pub fn update_v(&mut self, x: i32, y1: i32, y2: i32, amount: i64, charges: &[i64])
        requires
            old(self).wf(),
            y1 < y2 ==> 0 <= y1 && y2 <= old(self).est.up() && 0 <= x < old(self).est.columns() && charges@.len() == y2 - y1,
            forall|y: int| y1 <= y < y2 ==> i64::MIN <= #[trigger] old(self).est.ev(x as int, y) + charges@[y - y1] <= i64::MAX,
        ensures
            final(self).wf(),
            final(self).est.same_sides(&old(self).est),
            final(self).est.same_usage(&old(self).est),
            forall|cx: int, cy: int| old(self).est.has_v(cx, cy) ==> #[trigger] final(self).est.ev(cx, cy) == old(self).est.ev(cx, cy) + (if cx == x && y1 <= cy < y2 { charges@[cy - y1] as int } else { 0 }),
            forall|cx: int, cy: int| #[trigger] final(self).est.eh(cx, cy) == old(self).est.eh(cx, cy),
            final(self).used_v@ == marked(old(self).used_v@, amount as int, column_cells(x as int, y1 as int, y2 as int)),
            final(self).used_h == old(self).used_h,
            final(self).cap_h == old(self).cap_h,
            final(self).cap_v == old(self).cap_v,
    {
        let ghost s0 = *self;
        let mut y: i32 = y1;
        assert(self.used_v@ =~= marked(s0.used_v@, amount as int, column_cells(x as int, y1 as int, y as int)));
        while y < y2
            invariant
                s0.wf(),
                self.wf(),
                y1 <= y,
                y <= y2 || (y2 < y1 && y == y1),
                y1 < y2 ==> 0 <= y1 && y2 <= s0.est.up() && 0 <= x < s0.est.columns() && charges@.len() == y2 - y1,
                forall|y: int| y1 <= y < y2 ==> i64::MIN <= #[trigger] s0.est.ev(x as int, y) + charges@[y - y1] <= i64::MAX,
                self.est.same_sides(&s0.est),
                self.est.same_usage(&s0.est),
                self.used_h == s0.used_h,
                self.cap_h == s0.cap_h,
                self.cap_v == s0.cap_v,
                forall|cx: int, cy: int| s0.est.has_v(cx, cy) ==> #[trigger] self.est.ev(cx, cy) == s0.est.ev(cx, cy) + (if cx == x && y1 <= cy < y { charges@[cy - y1] as int } else { 0 }),
                forall|cx: int, cy: int| #[trigger] self.est.eh(cx, cy) == s0.est.eh(cx, cy),
                self.used_v@ == marked(s0.used_v@, amount as int, column_cells(x as int, y1 as int, y as int)),
            decreases y2 - y,
        {
            let ghost s1 = *self;
            let c: i64 = charges[(y - y1) as usize];
            assert(s0.est.has_v(x as int, y as int));
            assert(s1.est.ev(x as int, y as int) == s0.est.ev(x as int, y as int));
            self.est.update_v(x, y, y + 1, c);
            if amount > 0 {
                self.used_v.insert(x, y);
            }
            proof {
                assert(c * 1 == c && c * 0 == 0) by (nonlinear_arith);
                assert forall|cx: int, cy: int| s0.est.has_v(cx, cy) implies #[trigger] self.est.ev(cx, cy) == s0.est.ev(cx, cy) + (if cx == x && y1 <= cy < y + 1 { charges@[cy - y1] as int } else { 0 }) by {
                    assert(self.est.ev(cx, cy) == s1.est.ev(cx, cy) + c * on_column(x as int, y as int, y + 1, cx, cy));
                }
                assert(self.used_v@ =~= marked(s0.used_v@, amount as int, column_cells(x as int, y1 as int, y + 1)));
            }
            y += 1;
        }
        proof {
            assert(self.used_v@ =~= marked(s0.used_v@, amount as int, column_cells(x as int, y1 as int, y2 as int)));
        }
    }

    /// Charges one horizontal edge's committed demand, and marks it used where the amount is positive.
    pub fn update_usage_h(&mut self, x: i32, y: i32, amount: i64, charge: i64)
        requires
            old(self).wf(),
            old(self).est.has_h(x as int, y as int),
            i64::MIN <= old(self).est.uh(x as int, y as int) + charge <= i64::MAX,
        ensures
            final(self).wf(),
            final(self).est.same_sides(&old(self).est),
            final(self).est.same_estimate(&old(self).est),
            forall|cx: int, cy: int| old(self).est.has_h(cx, cy) ==> #[trigger] final(self).est.uh(cx, cy) == old(self).est.uh(cx, cy) + charge * on_row(x as int, x + 1, y as int, cx, cy),
            forall|cx: int, cy: int| #[trigger] final(self).est.uv(cx, cy) == old(self).est.uv(cx, cy),
            final(self).used_h@ == marked(old(self).used_h@, amount as int, set![(x, y)]),
            final(self).used_v == old(self).used_v,
            final(self).cap_h == old(self).cap_h,
            final(self).cap_v == old(self).cap_v,
    {
        let ghost s0 = *self;
        self.est.update_usage_h(x, y, charge);
        if amount > 0 {
            self.used_h.insert(x, y);
        }
        assert(self.used_h@ =~= marked(s0.used_h@, amount as int, set![(x, y)]));
    }

    /// Charges one vertical edge's committed demand, and marks it used where the amount is positive.
    pub fn update_usage_v(&mut self, x: i32, y: i32, amount: i64, charge: i64)
        requires
            old(self).wf(),
            old(self).est.has_v(x as int, y as int),
            i64::MIN <= old(self).est.uv(x as int, y as int) + charge <= i64::MAX,
        ensures
            final(self).wf(),
            final(self).est.same_sides(&old(self).est),
            final(self).est.same_estimate(&old(self).est),
            forall|cx: int, cy: int| old(self).est.has_v(cx, cy) ==> #[trigger] final(self).est.uv(cx, cy) == old(self).est.uv(cx, cy) + charge * on_column(x as int, y as int, y + 1, cx, cy),
            forall|cx: int, cy: int| #[trigger] final(self).est.uh(cx, cy) == old(self).est.uh(cx, cy),
            final(self).used_v@ == marked(old(self).used_v@, amount as int, set![(x, y)]),
            final(self).used_h == old(self).used_h,
            final(self).cap_h == old(self).cap_h,
            final(self).cap_v == old(self).cap_v,
    {
        let ghost s0 = *self;
        self.est.update_usage_v(x, y, charge);
        if amount > 0 {
            self.used_v.insert(x, y);
        }
        assert(self.used_v@ =~= marked(s0.used_v@, amount as int, set![(x, y)]));
    }

    /// What the overflow scan reads of the used edges: the horizontal ones in the order of their
    /// cells, then the vertical ones.
    pub fn used_cells(&self) -> (r: (Vec<UsedCell>, Vec<UsedCell>))
        requires
            self.wf(),
        ensures
            r.0@ == self.used_h.cells@.map_values(
                |c: (i32, i32)|
                    UsedCell {
                        x: c.0,
                        y: c.1,
                        est_usage: self.est.eh(c.0 as int, c.1 as int) as i64,
                        cap: self.cap_h@[at2(c.0 as int, c.1 as int, self.est.columns())],
                    },
            ),
            r.1@ == self.used_v.cells@.map_values(
                |c: (i32, i32)|
                    UsedCell {
                        x: c.0,
                        y: c.1,
                        est_usage: self.est.ev(c.0 as int, c.1 as int) as i64,
                        cap: self.cap_v@[at2(c.0 as int, c.1 as int, self.est.columns())],
                    },
            ),
    {
        let mut h: Vec<UsedCell> = Vec::new();
        let total: usize = self.cap_h.len();
        let mut k: usize = 0;
        while k < self.used_h.cells.len()
            invariant
                self.wf(),
                total == self.cap_h@.len(),
                k <= self.used_h.cells@.len(),
                h@.len() == k,
                forall|i: int| 0 <= i < k ==> #[trigger] h@[i] == (UsedCell {
                    x: self.used_h.cells@[i].0,
                    y: self.used_h.cells@[i].1,
                    est_usage: self.est.eh(self.used_h.cells@[i].0 as int, self.used_h.cells@[i].1 as int) as i64,
                    cap: self.cap_h@[at2(self.used_h.cells@[i].0 as int, self.used_h.cells@[i].1 as int, self.est.columns())],
                }),
            decreases self.used_h.cells@.len() - k,
        {
            let (x, y) = self.used_h.cells[k];
            proof {
                assert(self.used_h@.contains(self.used_h.cells@[k as int]));
                lemma_at2(x as int, y as int, self.est.columns(), self.est.rows());
            }
            let est_usage: i64 = self.est.h(x as usize, y as usize);
            let cap: u16 = self.cap_h[y as usize * self.est.x_grids + x as usize];
            h.push(UsedCell { x, y, est_usage, cap });
            k += 1;
        }
        let mut v: Vec<UsedCell> = Vec::new();
        k = 0;
        while k < self.used_v.cells.len()
            invariant
                self.wf(),
                total == self.cap_v@.len(),
                k <= self.used_v.cells@.len(),
                v@.len() == k,
                forall|i: int| 0 <= i < k ==> #[trigger] v@[i] == (UsedCell {
                    x: self.used_v.cells@[i].0,
                    y: self.used_v.cells@[i].1,
                    est_usage: self.est.ev(self.used_v.cells@[i].0 as int, self.used_v.cells@[i].1 as int) as i64,
                    cap: self.cap_v@[at2(self.used_v.cells@[i].0 as int, self.used_v.cells@[i].1 as int, self.est.columns())],
                }),
            decreases self.used_v.cells@.len() - k,
        {
            let (x, y) = self.used_v.cells[k];
            proof {
                assert(self.used_v@.contains(self.used_v.cells@[k as int]));
                lemma_at2(x as int, y as int, self.est.columns(), self.est.rows());
            }
            let est_usage: i64 = self.est.v(x as usize, y as usize);
            let cap: u16 = self.cap_v[y as usize * self.est.x_grids + x as usize];
            v.push(UsedCell { x, y, est_usage, cap });
            k += 1;
        }
        (h, v)
    }
}

} // verus!
