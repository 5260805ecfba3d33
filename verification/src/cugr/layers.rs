//! One routing layer: its tracks, and the length and spacing rules that the models of capacity and of
//! via demand read.

use vstd::prelude::*;
use vstd::string::StringExecFns;

use crate::cugr::geo::Interval;
use crate::grids::{fits, tdiv};

verus! {

/// The dimension of a horizontal and of a vertical layer: that along which a point or a box is read.
pub const H: usize = 0;
pub const V: usize = 1;

/// What a layer is built from.
#[derive(Debug)]
pub struct MetalLayerFacts {
    pub name: String,
    /// The layer's index is this minus one.
    pub routing_level: i32,
    pub horizontal: bool,
    pub width: i32,
    pub min_width: i32,
    pub spacing: i32,
    /// The pitch, the first track and the number of tracks.
    pub tracks: (i32, i32, i32),
    /// The minimum area, 0 when unset.
    pub area: i64,
    /// The widths and the lengths of the spacing table.
    pub v55_widths_and_lengths: Option<(Vec<u32>, Vec<u32>)>,
    /// The spacing table, by width.
    pub v55_table: Option<Vec<Vec<u32>>>,
}

/// A routing layer.
#[derive(Debug, Clone)]
pub struct MetalLayer {
    pub name: String,
    pub index: i32,
    /// [`H`] or [`V`].
    pub direction: usize,
    pub width: i32,
    pub min_width: i32,
    pub spacing: i32,
    pub pitch: i32,
    pub first_track_loc: i32,
    pub last_track_loc: i32,
    pub num_tracks: i32,
    pub area: i64,
    pub min_length: i32,
    pub parallel_width: Vec<i32>,
    pub parallel_length: Vec<i32>,
    pub parallel_spacing: Vec<Vec<i32>>,
    pub default_spacing: i32,
}

pub open spec fn as_signed(s: Seq<u32>) -> Seq<i32> {
    s.map_values(|v: u32| v as i32)
}

/// Whether a spacing table is there.
pub open spec fn has_table(f: MetalLayerFacts) -> bool {
    f.v55_table matches Some(t) && t@.len() > 0
}

/// The widths of a spacing table.
pub open spec fn widths_of(f: MetalLayerFacts) -> Seq<u32> {
    match f.v55_widths_and_lengths {
        Some((w, l)) => w@,
        None => Seq::empty(),
    }
}

/// The lengths of a spacing table.
pub open spec fn lengths_of(f: MetalLayerFacts) -> Seq<u32> {
    match f.v55_widths_and_lengths {
        Some((w, l)) => l@,
        None => Seq::empty(),
    }
}

/// The widths that a layer keeps: a single zero without a table or without widths.
pub open spec fn kept_widths(f: MetalLayerFacts) -> Seq<i32> {
    if has_table(f) && widths_of(f).len() > 0 { as_signed(widths_of(f)) } else { seq![0i32] }
}

/// The lengths that a layer keeps: a single zero without a table or without lengths.
pub open spec fn kept_lengths(f: MetalLayerFacts) -> Seq<i32> {
    if has_table(f) && lengths_of(f).len() > 0 { as_signed(lengths_of(f)) } else { seq![0i32] }
}

/// Row `w` of the spacings that a layer keeps.
pub open spec fn kept_row(f: MetalLayerFacts, w: int) -> Seq<i32> {
    if has_table(f) && widths_of(f).len() > 0 && lengths_of(f).len() > 0 {
        Seq::new(lengths_of(f).len(), |l: int| f.v55_table->0@[w]@[l] as i32)
    } else {
        seq![0i32]
    }
}

/// Whether the spacing table covers its widths and lengths.
pub open spec fn table_covers(f: MetalLayerFacts) -> bool {
    has_table(f) ==> {
        &&& widths_of(f).len() <= f.v55_table->0@.len()
        &&& forall|w: int| 0 <= w < widths_of(f).len() ==> lengths_of(f).len() <= (#[trigger] f.v55_table->0@[w])@.len()
    }
}

/// Whether a layer's numbers fit the machine.
pub open spec fn layer_fits(f: MetalLayerFacts) -> bool {
    &&& f.width != 0
    &&& f.width == -1 ==> f.area > i64::MIN
    &&& fits(((tdiv(f.area as int, f.width as int) as i64) as i32) - f.width)
    &&& fits(f.routing_level - 1)
    &&& fits(f.tracks.2 - 1)
    &&& fits(f.tracks.0 * (f.tracks.2 - 1))
    &&& fits(f.tracks.1 + f.tracks.0 * (f.tracks.2 - 1))
    &&& table_covers(f)
}

/// The least length of a wire: the area over the width, narrowed, less the width, and not below zero.
pub open spec fn least_length(f: MetalLayerFacts) -> int {
    let m = ((tdiv(f.area as int, f.width as int) as i64) as i32) - f.width;
    if m > 0 { m } else { 0 }
}

/// Whether a layer is the one that the facts give.
pub open spec fn is_layer_of(f: MetalLayerFacts, r: MetalLayer) -> bool {
    &&& r.name@ == f.name@
    &&& r.index == f.routing_level - 1
    &&& r.direction == (if f.horizontal { H } else { V })
    &&& r.width == f.width
    &&& r.min_width == f.min_width
    &&& r.spacing == f.spacing
    &&& r.pitch == f.tracks.0
    &&& r.first_track_loc == f.tracks.1
    &&& r.last_track_loc == f.tracks.1 + f.tracks.0 * (f.tracks.2 - 1)
    &&& r.num_tracks == f.tracks.2
    &&& r.area == f.area
    &&& r.min_length == least_length(f)
    &&& r.parallel_width@ == kept_widths(f)
    &&& r.parallel_length@ == kept_lengths(f)
    &&& r.parallel_spacing@.len() == kept_widths(f).len()
    &&& forall|w: int| 0 <= w < r.parallel_spacing@.len() ==> (#[trigger] r.parallel_spacing@[w])@ == kept_row(f, w)
    &&& r.default_spacing == kept_row(f, below(kept_widths(f), f.width, kept_widths(f).len() - 1))[0]
}

/// Going down from `k` while the bound is not below the query: the last entry strictly below it, the
/// first at worst.
pub open spec fn below(bounds: Seq<i32>, query: i32, k: int) -> int
    decreases k,
{
    if k > 0 && bounds[k] >= query { below(bounds, query, k - 1) } else { k }
}

/// The quotient rounded down, for a positive divisor.
pub open spec fn floor_div(a: int, b: int) -> int {
    a / b
}

/// The quotient rounded up, for a positive divisor.
pub open spec fn ceil_div(a: int, b: int) -> int {
    (a + b - 1) / b
}

fn signed(s: &Vec<u32>) -> (r: Vec<i32>)
    ensures
        r@ == as_signed(s@),
{
    let mut r: Vec<i32> = Vec::new();
    let mut k: usize = 0;
    while k < s.len()
        invariant
            k <= s@.len(),
            r@ == as_signed(s@.take(k as int)),
        decreases s@.len() - k,
    {
        r.push(s[k] as i32);
        k += 1;
        assert(r@ =~= as_signed(s@.take(k as int)));
    }
    assert(s@.take(k as int) =~= s@);
    r
}

fn one_zero() -> (r: Vec<i32>)
    ensures
        r@ == seq![0i32],
{
    let mut r: Vec<i32> = Vec::new();
    r.push(0);
    assert(r@ =~= seq![0i32]);
    r
}

impl MetalLayer {
    /// The row of the spacings that a width reads.
    pub open spec fn row_for(&self, width: i32) -> int {
        below(self.parallel_width@, width, self.parallel_width@.len() - 1)
    }

    /// The column of the spacings that a length reads: the first for no length.
    pub open spec fn column_for(&self, length: i32) -> int {
        if length == 0 { 0 } else { below(self.parallel_length@, length, self.parallel_length@.len() - 1) }
    }

    /// Whether a query reads an entry of the spacings.
    pub open spec fn can_read(&self, width: i32, length: i32) -> bool {
        &&& self.parallel_width@.len() > 0
        &&& length != 0 ==> self.parallel_length@.len() > 0
        &&& self.row_for(width) < self.parallel_spacing@.len()
        &&& self.column_for(length) < self.parallel_spacing@[self.row_for(width)]@.len()
    }

    /// A layer from what the database says of it.
    ///
    /// The least length is the area over the width, narrowed, less the width, and not below zero.
    pub fn new(f: &MetalLayerFacts) -> (r: MetalLayer)
        requires
            layer_fits(*f),
        ensures
            is_layer_of(*f, r),
    {
        let (pitch, first, num) = f.tracks;
        let quotient: i64 = f.area / (f.width as i64);
        let m: i32 = (quotient as i32) - f.width;
        let min_length: i32 = if m > 0 { m } else { 0 };
        let mut parallel_spacing: Vec<Vec<i32>> = Vec::new();
        parallel_spacing.push(one_zero());
        let mut r = MetalLayer {
            name: String::from_str(f.name.as_str()),
            index: f.routing_level - 1,
            direction: if f.horizontal { H } else { V },
            width: f.width,
            min_width: f.min_width,
            spacing: f.spacing,
            pitch,
            first_track_loc: first,
            last_track_loc: first + pitch * (num - 1),
            num_tracks: num,
            area: f.area,
            min_length,
            parallel_width: one_zero(),
            parallel_length: one_zero(),
            parallel_spacing,
            default_spacing: 0,
        };
        r.load_parallel_run_spacing(f);
        proof {
            lemma_below(r.parallel_width@, r.width, r.parallel_width@.len() - 1);
        }
        r.default_spacing = r.parallel_spacing_for(r.width, 0);
        r
    }

    /// Loads the spacing table over the defaults. Nothing is loaded unless the table holds something;
    /// the lengths and the widths replace their defaults only where there are any, and each row has an
    /// entry per length, one at least.
    fn load_parallel_run_spacing(&mut self, f: &MetalLayerFacts)
        requires
            table_covers(*f),
            old(self).parallel_width@ == seq![0i32],
            old(self).parallel_length@ == seq![0i32],
            old(self).parallel_spacing@.len() == 1,
            old(self).parallel_spacing@[0]@ == seq![0i32],
        ensures
            final(self).parallel_width@ == kept_widths(*f),
            final(self).parallel_length@ == kept_lengths(*f),
            final(self).parallel_spacing@.len() == kept_widths(*f).len(),
            forall|w: int| 0 <= w < final(self).parallel_spacing@.len() ==> (#[trigger] final(self).parallel_spacing@[w])@ == kept_row(*f, w),
            *final(self) == (MetalLayer {
                parallel_width: final(self).parallel_width,
                parallel_length: final(self).parallel_length,
                parallel_spacing: final(self).parallel_spacing,
                ..*old(self)
            }),
    {
        let table = match &f.v55_table {
            Some(t) => t,
            None => {
                return;
            },
        };
        if table.len() == 0 {
            return;
        }
        let (widths, lengths) = match &f.v55_widths_and_lengths {
            Some((w, l)) => (w, l),
            None => {
                return;
            },
        };
        if lengths.len() > 0 {
            self.parallel_length = signed(lengths);
        }
        if widths.len() > 0 {
            self.parallel_width = signed(widths);
            let mut rows: Vec<Vec<i32>> = Vec::new();
            let mut w: usize = 0;
            while w < widths.len()
                invariant
                    w <= widths@.len(),
                    table_covers(*f),
                    has_table(*f),
                    table@ == f.v55_table->0@,
                    widths@ == widths_of(*f),
                    lengths@ == lengths_of(*f),
                    widths@.len() > 0,
                    rows@.len() == w,
                    forall|v: int| 0 <= v < w ==> (#[trigger] rows@[v])@ == kept_row(*f, v),
                decreases widths@.len() - w,
            {
                let mut row: Vec<i32> = Vec::new();
                if lengths.len() == 0 {
                    row.push(0);
                    assert(row@ =~= kept_row(*f, w as int));
                } else {
                    let mut l: usize = 0;
                    while l < lengths.len()
                        invariant
                            l <= lengths@.len(),
                            w < widths@.len(),
                            table_covers(*f),
                            has_table(*f),
                            table@ == f.v55_table->0@,
                            widths@ == widths_of(*f),
                            lengths@ == lengths_of(*f),
                            row@.len() == l,
                            forall|k: int| 0 <= k < l ==> #[trigger] row@[k] == f.v55_table->0@[w as int]@[k] as i32,
                        decreases lengths@.len() - l,
                    {
                        assert(lengths_of(*f).len() <= f.v55_table->0@[w as int]@.len());
                        row.push(table[w][l] as i32);
                        l += 1;
                    }
                    assert(row@ =~= kept_row(*f, w as int));
                }
                rows.push(row);
                w += 1;
            }
            self.parallel_spacing = rows;
        }
    }

    /// The spacing of a width and a length: the row is the last whose width is strictly below, and so
    /// is the column; no length reads the first column.
    pub fn parallel_spacing_for(&self, width: i32, length: i32) -> (r: i32)
        requires
            self.can_read(width, length),
        ensures
            r == self.parallel_spacing@[self.row_for(width)]@[self.column_for(length)],
    {
        let mut w: usize = self.parallel_width.len() - 1;
        while w > 0 && self.parallel_width[w] >= width
            invariant
                w < self.parallel_width@.len(),
                below(self.parallel_width@, width, w as int) == self.row_for(width),
            decreases w,
        {
            w -= 1;
        }
        proof {
            lemma_below(self.parallel_width@, width, self.parallel_width@.len() - 1);
        }
        if length == 0 {
            return self.parallel_spacing[w][0];
        }
        let mut l: usize = self.parallel_length.len() - 1;
        while l > 0 && self.parallel_length[l] >= length
            invariant
                l < self.parallel_length@.len(),
                below(self.parallel_length@, length, l as int) == below(self.parallel_length@, length, self.parallel_length@.len() - 1),
            decreases l,
        {
            l -= 1;
        }
        self.parallel_spacing[w][l]
    }

    /// The place of a track.
    pub fn track_location(&self, track_index: i32) -> (r: i32)
        requires
            fits(track_index * self.pitch),
            fits(self.first_track_loc + track_index * self.pitch),
        ensures
            r == self.first_track_loc + track_index * self.pitch,
    {
        self.first_track_loc + track_index * self.pitch
    }

    /// The tracks from the first at or after the interval's low end to the last at or before its high
    /// end, within the layer's own.
    pub open spec fn tracks_within(&self, loc: Interval) -> (int, int) {
        let lo = if loc.low > self.first_track_loc { loc.low } else { self.first_track_loc };
        let hi = if loc.high < self.last_track_loc { loc.high } else { self.last_track_loc };
        (ceil_div(lo - self.first_track_loc, self.pitch as int), floor_div(hi - self.first_track_loc, self.pitch as int))
    }

    /// The tracks inside an interval, by index. Without its bounds a track exactly on either end is
    /// dropped.
    pub fn range_search_tracks(&self, loc: Interval, include_bound: bool) -> (r: Interval)
        requires
            self.pitch > 0,
            fits(self.tracks_within(loc).0 + 1),
            fits(self.tracks_within(loc).1 - 1),
            fits(self.tracks_within(loc).1),
        ensures
            ({
                let (lo, hi) = self.tracks_within(loc);
                let drop = !include_bound && lo <= hi;
                &&& r.low == lo + (if drop && self.first_track_loc + lo * self.pitch == loc.low { 1int } else { 0int })
                &&& r.high == hi - (if drop && self.first_track_loc + hi * self.pitch == loc.high { 1int } else { 0int })
            }),
    {
        let first: i64 = self.first_track_loc as i64;
        let pitch: i64 = self.pitch as i64;
        let lo: i64 = if loc.low > self.first_track_loc { loc.low as i64 } else { first };
        let hi: i64 = if loc.high < self.last_track_loc { loc.high as i64 } else { self.last_track_loc as i64 };
        let from: i64 = (lo - first + (pitch - 1)) / pitch;
        let a: i64 = hi - first;
        let to: i64 = if a >= 0 { a / pitch } else { -((-a + (pitch - 1)) / pitch) };
        proof {
            let p = pitch as int;
            assert(to == a as int / p) by {
                if a < 0 {
                    let k = (-a + (p - 1)) / p;
                    assert(-k == a as int / p) by (nonlinear_arith)
                        requires
                            p > 0,
                            k == (-a + (p - 1)) / p,
                    ;
                }
            }
            assert(from == self.tracks_within(loc).0);
            assert(to == self.tracks_within(loc).1);
        }
        let mut r = Interval { low: from as i32, high: to as i32 };
        if r.low > r.high {
            return r;
        }
        if !include_bound {
            proof {
                let (f, t, p) = (from as int, to as int, pitch as int);
                assert(0 <= f <= t) by (nonlinear_arith)
                    requires
                        f == (lo - first + (p - 1)) / p,
                        lo - first >= 0,
                        p > 0,
                        f <= t,
                ;
                assert(0 <= t * p <= a) by (nonlinear_arith)
                    requires
                        t == a as int / p,
                        p > 0,
                        t >= 0,
                ;
                assert(0 <= f * p <= t * p) by (nonlinear_arith)
                    requires
                        0 <= f <= t,
                        p > 0,
                ;
            }
            let low_at: i64 = first + from * pitch;
            let high_at: i64 = first + to * pitch;
            if low_at == loc.low as i64 {
                r.low = r.low + 1;
            }
            if high_at == loc.high as i64 {
                r.high = r.high - 1;
            }
        }
        r
    }
}

proof fn lemma_below(bounds: Seq<i32>, query: i32, k: int)
    requires
        0 <= k < bounds.len(),
    ensures
        0 <= below(bounds, query, k) <= k,
        below(bounds, query, k) > 0 ==> bounds[below(bounds, query, k)] < query,
        forall|j: int| below(bounds, query, k) < j <= k ==> #[trigger] bounds[j] >= query,
    decreases k,
{
    if k > 0 && bounds[k] >= query {
        lemma_below(bounds, query, k - 1);
    }
}

/// The row or the column that a query reads is the last whose bound is strictly below it, or the
/// first.
pub proof fn a_query_reads_the_last_bound_below_it(bounds: Seq<i32>, query: i32)
    requires
        bounds.len() > 0,
    ensures
        ({
            let k = below(bounds, query, bounds.len() - 1);
            &&& 0 <= k < bounds.len()
            &&& k > 0 ==> bounds[k] < query
            &&& forall|j: int| k < j < bounds.len() ==> #[trigger] bounds[j] >= query
        }),
{
    lemma_below(bounds, query, bounds.len() - 1);
}

/// The tracks found inside an interval, its bounds included, are those of the layer that lie in it.
pub proof fn the_tracks_found_are_those_inside(l: MetalLayer, loc: Interval, t: int)
    requires
        l.pitch > 0,
        l.last_track_loc == l.first_track_loc + l.pitch * (l.num_tracks - 1),
    ensures
        l.tracks_within(loc).0 <= t <= l.tracks_within(loc).1 <==> 0 <= t < l.num_tracks && loc.has(l.first_track_loc + t * l.pitch),
{
    let p = l.pitch as int;
    let f = l.first_track_loc as int;
    let n = l.num_tracks as int;
    let lo = if loc.low > f { loc.low as int } else { f };
    let hi = if loc.high < l.last_track_loc { loc.high as int } else { l.last_track_loc as int };
    assert(ceil_div(lo - f, p) <= t <==> lo - f <= t * p) by (nonlinear_arith)
        requires
            p > 0,
            ceil_div(lo - f, p) == (lo - f + p - 1) / p,
    ;
    assert(t <= floor_div(hi - f, p) <==> t * p <= hi - f) by (nonlinear_arith)
        requires
            p > 0,
            floor_div(hi - f, p) == (hi - f) / p,
    ;
    assert(t * p >= 0 <==> t >= 0) by (nonlinear_arith)
        requires
            p > 0,
    ;
    assert(t * p <= p * (n - 1) <==> t <= n - 1) by (nonlinear_arith)
        requires
            p > 0,
    ;
}

} // verus!
