//! A point, a closed interval of integers, and a box of two intervals.
//!
//! An interval is born invalid and grows from there, so that a bounding box starts empty rather than
//! at the origin.

use vstd::prelude::*;

use crate::grids::{fits, tdiv};

verus! {

/// A point in gcells or in database units.
#[derive(Debug, Clone, Copy, PartialEq, Eq, Structural, Hash, PartialOrd, Ord)]
pub struct Point {
    pub x: i32,
    pub y: i32,
}

impl Default for Point {
    /// The largest point.
    fn default() -> (p: Self)
        ensures
            p == (Point { x: i32::MAX, y: i32::MAX }),
    {
        Point { x: i32::MAX, y: i32::MAX }
    }
}

impl Point {
    pub fn new(x: i32, y: i32) -> (p: Self)
        ensures
            p == (Point { x, y }),
    {
        Point { x, y }
    }

    /// The coordinate of a dimension: 0 is x, any other y.
    pub fn get(self, dimension: usize) -> (r: i32)
        ensures
            r == (if dimension == 0 { self.x } else { self.y }),
    {
        if dimension == 0 { self.x } else { self.y }
    }

    pub fn set(&mut self, dimension: usize, value: i32)
        ensures
            *final(self) == (if dimension == 0 { Point { x: value, y: old(self).y } } else { Point { x: old(self).x, y: value } }),
    {
        if dimension == 0 {
            self.x = value;
        } else {
            self.y = value;
        }
    }
}

/// A closed interval. One whose low end is above its high end is invalid.
#[derive(Debug, Clone, Copy)]
pub struct Interval {
    pub low: i32,
    pub high: i32,
}

impl Default for Interval {
    /// The invalid interval from which a bounding interval grows.
    fn default() -> (r: Self)
        ensures
            r == (Interval { low: i32::MAX, high: i32::MIN }),
    {
        Interval { low: i32::MAX, high: i32::MIN }
    }
}

impl PartialEq for Interval {
    /// Two invalid intervals are equal whatever their ends.
    fn eq(&self, rhs: &Self) -> (r: bool) {
        (self.low > self.high && rhs.low > rhs.high) || (self.low == rhs.low && self.high == rhs.high)
    }
}

impl vstd::std_specs::cmp::PartialEqSpecImpl for Interval {
    open spec fn obeys_eq_spec() -> bool {
        true
    }

    open spec fn eq_spec(&self, rhs: &Self) -> bool {
        (self.low > self.high && rhs.low > rhs.high) || (self.low == rhs.low && self.high == rhs.high)
    }
}

/// The lower of two.
pub open spec fn low_of(a: i32, b: i32) -> i32 {
    if a < b { a } else { b }
}

/// The higher of two.
pub open spec fn high_of(a: i32, b: i32) -> i32 {
    if a > b { a } else { b }
}

impl Interval {
    pub open spec fn valid(&self) -> bool {
        self.low <= self.high
    }

    /// Whether the interval holds a value.
    pub open spec fn has(&self, v: int) -> bool {
        self.low <= v <= self.high
    }

    /// The length, 0 for an invalid interval.
    pub open spec fn length(&self) -> int {
        if self.valid() { self.high - self.low } else { 0 }
    }

    /// The smallest interval that holds both; an invalid one adds nothing.
    pub open spec fn hull(&self, rhs: Interval) -> Interval {
        if !self.valid() {
            rhs
        } else if !rhs.valid() {
            *self
        } else {
            Interval { low: low_of(self.low, rhs.low), high: high_of(self.high, rhs.high) }
        }
    }

    pub fn new(low: i32, high: i32) -> (r: Self)
        ensures
            r == (Interval { low, high }),
    {
        Interval { low, high }
    }

    /// The interval of one point.
    pub fn point(value: i32) -> (r: Self)
        ensures
            r == (Interval { low: value, high: value }),
    {
        Interval { low: value, high: value }
    }

    pub fn is_valid(&self) -> (r: bool)
        ensures
            r == self.valid(),
    {
        self.low <= self.high
    }

    /// The length, 0 for an invalid interval.
    pub fn range(&self) -> (r: i32)
        requires
            fits(self.length()),
        ensures
            r == self.length(),
    {
        if self.low <= self.high { self.high - self.low } else { 0 }
    }

    /// The middle: half the wrapping sum of the ends, rounded toward zero.
    pub fn center(&self) -> (r: i32)
        ensures
            r == tdiv(self.high.wrapping_add(self.low) as int, 2),
            fits(self.low + self.high) ==> r == tdiv(self.low + self.high, 2),
    {
        self.high.wrapping_add(self.low) / 2
    }

    /// Grows to hold a value.
    pub fn update(&mut self, value: i32)
        ensures
            *final(self) == (Interval { low: low_of(old(self).low, value), high: high_of(old(self).high, value) }),
    {
        if value < self.low {
            self.low = value;
        }
        if value > self.high {
            self.high = value;
        }
    }

    /// The smallest interval that holds both. An invalid side gives the other back unchanged.
    pub fn union_with(&self, rhs: &Interval) -> (r: Interval)
        ensures
            r == self.hull(*rhs),
    {
        if !self.is_valid() {
            return *rhs;
        }
        if !rhs.is_valid() {
            return *self;
        }
        Interval {
            low: if self.low < rhs.low { self.low } else { rhs.low },
            high: if self.high > rhs.high { self.high } else { rhs.high },
        }
    }

    /// What both hold. Intervals apart give an invalid one.
    pub fn intersect_with(&self, rhs: &Interval) -> (r: Interval)
        ensures
            r == (Interval { low: high_of(self.low, rhs.low), high: low_of(self.high, rhs.high) }),
            forall|v: int| #[trigger] r.has(v) <==> self.has(v) && rhs.has(v),
    {
        let r = Interval {
            low: if self.low > rhs.low { self.low } else { rhs.low },
            high: if self.high < rhs.high { self.high } else { rhs.high },
        };
        r
    }

    pub fn contains(&self, value: i32) -> (r: bool)
        ensures
            r == self.has(value as int),
    {
        value >= self.low && value <= self.high
    }
}

/// The union of two intervals holds what either holds, and lies within every interval that holds
/// both.
pub proof fn the_union_is_the_least_interval_around_both(a: Interval, b: Interval, c: Interval, v: int)
    ensures
        a.has(v) || b.has(v) ==> a.hull(b).has(v),
        (forall|u: int| a.has(u) || b.has(u) ==> #[trigger] c.has(u)) && a.hull(b).has(v) ==> c.has(v),
{
    if (forall|u: int| a.has(u) || b.has(u) ==> #[trigger] c.has(u)) && a.hull(b).has(v) {
        if a.valid() {
            assert(c.has(a.low as int) && c.has(a.high as int));
        }
        if b.valid() {
            assert(c.has(b.low as int) && c.has(b.high as int));
        }
    }
}

/// A box: an interval of x and one of y.
#[derive(Debug, Clone, Copy, PartialEq)]
pub struct BoxT {
    pub x: Interval,
    pub y: Interval,
}

impl Default for BoxT {
    /// The box that is invalid both ways.
    fn default() -> (r: Self)
        ensures
            r.x == (Interval { low: i32::MAX, high: i32::MIN }),
            r.y == (Interval { low: i32::MAX, high: i32::MIN }),
    {
        BoxT { x: Interval { low: i32::MAX, high: i32::MIN }, y: Interval { low: i32::MAX, high: i32::MIN } }
    }
}

impl BoxT {
    pub fn new(lx: i32, ly: i32, hx: i32, hy: i32) -> (r: Self)
        ensures
            r == (BoxT { x: Interval { low: lx, high: hx }, y: Interval { low: ly, high: hy } }),
    {
        BoxT { x: Interval { low: lx, high: hx }, y: Interval { low: ly, high: hy } }
    }

    pub fn from_intervals(x: Interval, y: Interval) -> (r: Self)
        ensures
            r == (BoxT { x, y }),
    {
        BoxT { x, y }
    }

    /// The interval of a dimension: 0 is that of x, any other that of y.
    pub fn get(&self, dimension: usize) -> (r: Interval)
        ensures
            r == self.side(dimension as int),
    {
        if dimension == 0 { self.x } else { self.y }
    }

    /// The interval of a dimension.
    pub open spec fn side(&self, dimension: int) -> Interval {
        if dimension == 0 { self.x } else { self.y }
    }

    pub fn lx(&self) -> (r: i32)
        ensures
            r == self.x.low,
    {
        self.x.low
    }

    pub fn ly(&self) -> (r: i32)
        ensures
            r == self.y.low,
    {
        self.y.low
    }

    pub fn hx(&self) -> (r: i32)
        ensures
            r == self.x.high,
    {
        self.x.high
    }

    pub fn hy(&self) -> (r: i32)
        ensures
            r == self.y.high,
    {
        self.y.high
    }

    pub fn cx(&self) -> (r: i32)
        ensures
            r == tdiv(self.x.high.wrapping_add(self.x.low) as int, 2),
    {
        self.x.center()
    }

    pub fn cy(&self) -> (r: i32)
        ensures
            r == tdiv(self.y.high.wrapping_add(self.y.low) as int, 2),
    {
        self.y.center()
    }

    pub open spec fn valid(&self) -> bool {
        self.x.valid() && self.y.valid()
    }

    pub fn is_valid(&self) -> (r: bool)
        ensures
            r == self.valid(),
    {
        self.x.is_valid() && self.y.is_valid()
    }

    /// Half the perimeter: each side counts 0 where it is invalid.
    pub fn hp(&self) -> (r: i32)
        requires
            fits(self.x.length()),
            fits(self.y.length()),
            fits(self.x.length() + self.y.length()),
        ensures
            r == self.x.length() + self.y.length(),
    {
        self.x.range() + self.y.range()
    }

    /// Grows to hold a point.
    pub fn update(&mut self, p: Point)
        ensures
            final(self).x == (Interval { low: low_of(old(self).x.low, p.x), high: high_of(old(self).x.high, p.x) }),
            final(self).y == (Interval { low: low_of(old(self).y.low, p.y), high: high_of(old(self).y.high, p.y) }),
    {
        self.x.update(p.x);
        self.y.update(p.y);
    }
}

/// The box that holds the first `n` points and no more, from the invalid box.
pub open spec fn bound(points: Seq<Point>, n: int) -> BoxT
    decreases n,
{
    if n <= 0 {
        BoxT { x: Interval { low: i32::MAX, high: i32::MIN }, y: Interval { low: i32::MAX, high: i32::MIN } }
    } else {
        let b = bound(points, n - 1);
        let p = points[n - 1];
        BoxT {
            x: Interval { low: low_of(b.x.low, p.x), high: high_of(b.x.high, p.x) },
            y: Interval { low: low_of(b.y.low, p.y), high: high_of(b.y.high, p.y) },
        }
    }
}

/// A bounding box that grows from empty holds every point it has taken.
pub proof fn a_bounding_box_holds_its_points(points: Seq<Point>, n: int, k: int)
    requires
        0 <= k < n <= points.len(),
    ensures
        bound(points, n).x.has(points[k].x as int),
        bound(points, n).y.has(points[k].y as int),
        bound(points, n).valid(),
    decreases n,
{
    if k < n - 1 {
        a_bounding_box_holds_its_points(points, n - 1, k);
    }
}

} // verus!
