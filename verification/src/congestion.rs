//! The congestion the router leaves: each cell's capacity and usage per layer, and the markers of
//! every overflowing cell with the nets crossing it, in a seeded-shuffled order.

use vstd::prelude::*;
use vstd::string::StringExecFns;

use crate::callbacks::same_text;
use crate::grids::{at2, in_grid2, lemma_at2, tdiv};
use crate::text::{is_text_less, lemma_text_less_trans, lemma_text_order, push_text, text_less, texts};

verus! {

/// One 3D edge.
#[derive(Debug, Clone, Copy, PartialEq, Eq, Structural, Default)]
pub struct CongestionEdge {
    pub cap: u16,
    pub red: u16,
    pub usage: u16,
}

/// One routing layer's 3D edges, `[y][x]` flattened `y * x_grid + x`, the last column and row
/// included.
pub struct DbCongestionLayer<'a> {
    pub horizontal: bool,
    pub h: &'a [CongestionEdge],
    pub v: &'a [CongestionEdge],
}

/// The 8-bit capacity of an edge before reductions.
pub open spec fn full_cap(e: CongestionEdge) -> u8 {
    (e.cap + e.red) as u8
}

/// A cell's capacity: that of its edge along the layer's direction, the last cell repeating the one
/// before. On a grid of one cell in that direction there is none.
pub open spec fn cell_capacity(l: DbCongestionLayer, xg: int, yg: int, x: int, y: int) -> u8 {
    if l.horizontal {
        if xg <= 1 {
            0
        } else {
            full_cap(l.h@[at2(if x == xg - 1 { x - 1 } else { x }, y, xg)])
        }
    } else {
        if yg <= 1 {
            0
        } else {
            full_cap(l.v@[at2(x, if y == yg - 1 { y - 1 } else { y }, xg)])
        }
    }
}

/// An edge's usage with a reduction, each in 8 bits.
pub open spec fn used(usage: u16, red: u16) -> u8 {
    (usage + (red as u8)) as u8
}

/// A cell's usage over both of its edges. The top-right cell of a grid larger than one in both
/// directions takes the reductions of its left and lower edges and the usages of the diagonal cell.
pub open spec fn cell_usage(l: DbCongestionLayer, xg: int, yg: int, x: int, y: int) -> int {
    if x == xg - 1 && y == yg - 1 && xg > 1 && yg > 1 {
        let d = at2(x - 1, y - 1, xg);
        used(l.h@[d].usage, l.h@[at2(x - 1, y, xg)].red) + used(l.v@[d].usage, l.v@[at2(x, y - 1, xg)].red)
    } else {
        let i = at2(x, y, xg);
        used(l.h@[i].usage, l.h@[i].red) + used(l.v@[i].usage, l.v@[i].red)
    }
}

fn used_of(usage: u16, red: u16) -> (r: u8)
    ensures
        r == used(usage, red),
{
    let b: u8 = #[verifier::truncate] (red as u8);
    #[verifier::truncate] ((usage as i32 + b as i32) as u8)
}

fn full_cap_of(e: CongestionEdge) -> (r: u8)
    ensures
        r == full_cap(e),
{
    #[verifier::truncate] ((e.cap as i32 + e.red as i32) as u8)
}

/// One layer's capacity and usage per cell, `[y][x]`.
pub fn update_db_congestion(x_grid: i32, y_grid: i32, l: &DbCongestionLayer<'_>) -> (cells: Vec<(u8, u16)>)
    requires
        x_grid >= 0,
        y_grid >= 0,
        y_grid * x_grid <= l.h@.len(),
        y_grid * x_grid <= l.v@.len(),
    ensures
        cells@.len() == y_grid * x_grid,
        forall|x: int, y: int|
            in_grid2(x, y, x_grid as int, y_grid as int) ==> (#[trigger] cells@[at2(x, y, x_grid as int)]).0 == cell_capacity(
                *l, x_grid as int, y_grid as int, x, y) && cells@[at2(x, y, x_grid as int)].1 == cell_usage(
                *l, x_grid as int, y_grid as int, x, y),
{
    let (xg, yg) = (x_grid as usize, y_grid as usize);
    let ghost (w, h) = (x_grid as int, y_grid as int);
    let hlen: usize = l.h.len();
    let mut cells: Vec<(u8, u16)> = Vec::new();
    let mut y: usize = 0;
    assert(0 * w == 0);
    while y < yg
        invariant
            0 <= y <= yg,
            (xg, yg) == (w as usize, h as usize),
            0 <= w <= i32::MAX,
            0 <= h <= i32::MAX,
            h * w <= l.h@.len() == hlen,
            h * w <= l.v@.len(),
            cells@.len() == y * w,
            forall|a: int, b: int|
                in_grid2(a, b, w, y as int) ==> (#[trigger] cells@[at2(a, b, w)]).0 == cell_capacity(*l, w, h, a, b) && cells@[at2(
                    a, b, w)].1 == cell_usage(*l, w, h, a, b),
        decreases yg - y,
    {
        let mut x: usize = 0;
        while x < xg
            invariant
                0 <= y < yg,
                0 <= x <= xg,
                (xg, yg) == (w as usize, h as usize),
                0 <= w <= i32::MAX,
                0 <= h <= i32::MAX,
                h * w <= l.h@.len() == hlen,
                h * w <= l.v@.len(),
                cells@.len() == y * w + x,
                forall|a: int, b: int|
                    in_grid2(a, b, w, y + 1) && (b < y || a < x) ==> (#[trigger] cells@[at2(a, b, w)]).0 == cell_capacity(
                        *l, w, h, a, b) && cells@[at2(a, b, w)].1 == cell_usage(*l, w, h, a, b),
            decreases xg - x,
        {
            proof {
                lemma_at2(x as int, y as int, w, h);
                if x >= 1 {
                    lemma_at2(x - 1, y as int, w, h);
                }
                if y >= 1 {
                    lemma_at2(x as int, y - 1, w, h);
                    if x >= 1 {
                        lemma_at2(x - 1, y - 1, w, h);
                    }
                }
            }
            let i: usize = y * xg + x;
            let cap: u8 = if l.horizontal {
                if xg <= 1 {
                    0
                } else if x == xg - 1 {
                    full_cap_of(l.h[y * xg + (x - 1)])
                } else {
                    full_cap_of(l.h[i])
                }
            } else {
                if yg <= 1 {
                    0
                } else if y == yg - 1 {
                    full_cap_of(l.v[(y - 1) * xg + x])
                } else {
                    full_cap_of(l.v[i])
                }
            };
            let usage: u16 = if x == xg - 1 && y == yg - 1 && xg > 1 && yg > 1 {
                let d: usize = (y - 1) * xg + (x - 1);
                used_of(l.h[d].usage, l.h[y * xg + (x - 1)].red) as u16 + used_of(l.v[d].usage, l.v[(y - 1) * xg + x].red) as u16
            } else {
                used_of(l.h[i].usage, l.h[i].red) as u16 + used_of(l.v[i].usage, l.v[i].red) as u16
            };
            let ghost c0 = cells@;
            cells.push((cap, usage));
            proof {
                assert forall|a: int, b: int|
                    in_grid2(a, b, w, y + 1) && (b < y || a < x + 1) implies (#[trigger] cells@[at2(a, b, w)]).0 == cell_capacity(
                    *l, w, h, a, b) && cells@[at2(a, b, w)].1 == cell_usage(*l, w, h, a, b) by {
                    if b == y && a == x {
                        assert(at2(a, b, w) == c0.len());
                    } else if b < y {
                        lemma_at2(a, b, w, y as int);
                        assert(cells@[at2(a, b, w)] == c0[at2(a, b, w)]);
                    } else {
                        lemma_at2(a, b, w, y + 1);
                        assert(cells@[at2(a, b, w)] == c0[at2(a, b, w)]);
                    }
                }
            }
            x += 1;
        }
        assert((y + 1) * w == y * w + w) by (nonlinear_arith);
        y += 1;
    }
    cells
}

/// The 32-bit Mersenne twister.
pub struct Mt19937 {
    mt: Vec<u32>,
    index: usize,
}

/// The words a seed sets up.
pub open spec fn seeded(seed: u32, n: nat) -> Seq<u32>
    decreases n,
{
    if n <= 1 {
        seq![seed]
    } else {
        let s = seeded(seed, (n - 1) as nat);
        let p = s[n - 2];
        s.push(1812433253u32.wrapping_mul(p ^ (p >> 30)).wrapping_add((n - 1) as u32))
    }
}

/// The word that replaces word `i`.
pub open spec fn twisted_word(s: Seq<u32>, i: int) -> u32 {
    let y = (s[i] & 0x8000_0000) | (s[(i + 1) % 624] & 0x7fff_ffff);
    let v = s[(i + 397) % 624] ^ (y >> 1);
    if y & 1 != 0 { v ^ 0x9908_b0df } else { v }
}

/// The words with the first `n` replaced, one after the other.
pub open spec fn twisted(s: Seq<u32>, n: int) -> Seq<u32>
    decreases n,
{
    if n <= 0 {
        s
    } else {
        let t = twisted(s, n - 1);
        t.update(n - 1, twisted_word(t, n - 1))
    }
}

/// A word as it is given out.
pub open spec fn tempered(y: u32) -> u32 {
    let a = y ^ (y >> 11);
    let b = a ^ ((a << 7) & 0x9d2c_5680);
    let c = b ^ ((b << 15) & 0xefc6_0000);
    c ^ (c >> 18)
}

/// The state of a generator: its words and how many were given out since they were replaced.
pub struct MtState {
    pub words: Seq<u32>,
    pub index: int,
}

/// A generator's state with words to give out.
pub open spec fn refilled(s: MtState) -> MtState {
    if s.index >= 624 { MtState { words: twisted(s.words, 624), index: 0 } } else { s }
}

/// The next number of a generator.
pub open spec fn mt_output(s: MtState) -> u32 {
    let r = refilled(s);
    tempered(r.words[r.index])
}

/// A generator's state after the next number.
pub open spec fn mt_next(s: MtState) -> MtState {
    let r = refilled(s);
    MtState { words: r.words, index: r.index + 1 }
}

/// A generator's state after `n` numbers.
pub open spec fn mt_after(s: MtState, n: nat) -> MtState
    decreases n,
{
    if n == 0 { s } else { mt_next(mt_after(s, (n - 1) as nat)) }
}

/// The state a seed sets up.
pub open spec fn mt_seeded(seed: u32) -> MtState {
    MtState { words: seeded(seed, 624), index: 624 }
}

impl Mt19937 {
    /// Whether the generator has all its words.
    pub closed spec fn wf(&self) -> bool {
        self.mt@.len() == 624 && self.index <= 624
    }

    pub closed spec fn view(&self) -> MtState {
        MtState { words: self.mt@, index: self.index as int }
    }

    pub fn new(seed: u32) -> (g: Mt19937)
        ensures
            g.wf(),
            g@ == mt_seeded(seed),
    {
        let mut mt: Vec<u32> = Vec::new();
        mt.push(seed);
        assert(mt@ =~= seeded(seed, 1));
        let mut i: usize = 1;
        while i < 624
            invariant
                1 <= i <= 624,
                mt@.len() == i,
                mt@ == seeded(seed, i as nat),
            decreases 624 - i,
        {
            let p: u32 = mt[i - 1];
            mt.push(1812433253u32.wrapping_mul(p ^ (p >> 30)).wrapping_add(i as u32));
            i += 1;
            assert(mt@ =~= seeded(seed, i as nat));
        }
        Mt19937 { mt, index: 624 }
    }

    /// The next number.
    pub fn next_u32(&mut self) -> (r: u32)
        requires
            old(self).wf(),
        ensures
            final(self).wf(),
            r == mt_output(old(self)@),
            final(self)@ == mt_next(old(self)@),
    {
        if self.index >= 624 {
            let ghost s = self.mt@;
            let mut i: usize = 0;
            while i < 624
                invariant
                    i <= 624,
                    self.mt@.len() == 624,
                    self.mt@ == twisted(s, i as int),
                    s.len() == 624,
                decreases 624 - i,
            {
                let y: u32 = (self.mt[i] & 0x8000_0000) | (self.mt[(i + 1) % 624] & 0x7fff_ffff);
                let mut v: u32 = self.mt[(i + 397) % 624] ^ (y >> 1);
                if y & 1 != 0 {
                    v = v ^ 0x9908_b0df;
                }
                self.mt[i] = v;
                i += 1;
            }
            self.index = 0;
        }
        let y: u32 = self.mt[self.index];
        self.index = self.index + 1;
        let a: u32 = y ^ (y >> 11);
        let b: u32 = a ^ ((a << 7) & 0x9d2c_5680);
        let c: u32 = b ^ ((b << 15) & 0xefc6_0000);
        c ^ (c >> 18)
    }
}

/// The number of 32-bit draws that fall to each value of `0..=range`.
pub open spec fn bucket_size(range: u64) -> int {
    0x1_0000_0000int / (range + 1)
}

/// The bucket of a draw: past the last full one it is above `range`, and the draw is refused.
pub open spec fn bucket_of(draw: u32, range: u64) -> int {
    draw as int / bucket_size(range)
}

/// The place of the first draw that is not refused.
pub open spec fn first_taken(draws: Seq<u32>, range: u64, i: int) -> bool {
    &&& 0 <= i < draws.len()
    &&& bucket_of(draws[i], range) <= range
    &&& forall|j: int| 0 <= j < i ==> bucket_of(#[trigger] draws[j], range) > range
}

/// A number in `0..=range` from a list of 32-bit draws, and how many of them it took: draws past the
/// last full bucket are refused. No draw is taken where there is nothing to choose; `None` when all
/// are refused.
pub fn boost_uniform_int(draws: &[u32], range: u64) -> (r: Option<(u64, usize)>)
    requires
        range < 0x1_0000_0000,
    ensures
        match r {
            Some((v, n)) => if range == 0 {
                v == 0 && n == 0
            } else {
                n > 0 && first_taken(draws@, range, n - 1) && v == bucket_of(draws@[n - 1], range)
            },
            None => range != 0 && forall|j: int| 0 <= j < draws@.len() ==> bucket_of(#[trigger] draws@[j], range) > range,
        },
{
    if range == 0 {
        return Some((0, 0));
    }
    let bucket: u64 = 0x1_0000_0000 / (range + 1);
    proof {
        lemma_bucket(range);
    }
    let mut i: usize = 0;
    while i < draws.len()
        invariant
            i <= draws@.len(),
            range != 0,
            bucket == bucket_size(range),
            bucket > 0,
            forall|j: int| 0 <= j < i ==> bucket_of(#[trigger] draws@[j], range) > range,
        decreases draws@.len() - i,
    {
        let v: u64 = draws[i] as u64 / bucket;
        if v <= range {
            return Some((v, i + 1));
        }
        i += 1;
    }
    None
}

proof fn lemma_bucket(range: u64)
    requires
        range < 0x1_0000_0000,
    ensures
        bucket_size(range) > 0,
{
    let d = range + 1;
    assert(0x1_0000_0000int / d >= 1) by (nonlinear_arith)
        requires
            1 <= d <= 0x1_0000_0000,
    ;
}

/// Whether a generator gives `v` in `0..=range` at its `n`-th number from here, the ones before being
/// refused; 0 takes no number where there is nothing to choose.
pub open spec fn drawn(s: MtState, range: u64, v: int, n: nat) -> bool {
    if range == 0 {
        v == 0 && n == 0
    } else {
        &&& 0 < n <= DRAW_LIMIT
        &&& v == bucket_of(mt_output(mt_after(s, (n - 1) as nat)), range)
        &&& 0 <= v <= range
        &&& forall|j: nat| j < n - 1 ==> bucket_of(mt_output(#[trigger] mt_after(s, j)), range) > range
    }
}

/// Whether a generator gives `v` in `0..=range` and is left in state `after`.
pub open spec fn drawn_to(s: MtState, range: u64, v: int, after: MtState) -> bool {
    exists|n: nat| #[trigger] drawn(s, range, v, n) && after == mt_after(s, n)
}

/// How many numbers are asked for before giving up.
pub const DRAW_LIMIT: u64 = 0xffff_ffff_ffff_ffff;

/// Whether a generator's next [`DRAW_LIMIT`] numbers are all refused for `0..=range`.
#[verifier::opaque]
pub open spec fn gives_out(s: MtState, range: u64) -> bool {
    range != 0 && forall|j: nat| j < DRAW_LIMIT ==> bucket_of(mt_output(#[trigger] mt_after(s, j)), range) > range
}

/// A number in `0..=range` from a generator; `None` when it gave [`DRAW_LIMIT`] numbers in a row that
/// were refused.
fn boost_uniform(eng: &mut Mt19937, range: u64) -> (r: Option<u64>)
    requires
        old(eng).wf(),
        range < 0x1_0000_0000,
    ensures
        final(eng).wf(),
        r matches Some(v) ==> drawn_to(old(eng)@, range, v as int, final(eng)@),
        r is None ==> gives_out(old(eng)@, range) && final(eng)@ == mt_after(old(eng)@, DRAW_LIMIT as nat),
{
    let ghost s = eng@;
    if range == 0 {
        assert(drawn(s, range, 0, 0));
        assert(eng@ == mt_after(s, 0));
        return Some(0);
    }
    let bucket: u64 = 0x1_0000_0000 / (range + 1);
    proof {
        lemma_bucket(range);
    }
    let mut n: u64 = 0;
    while n < DRAW_LIMIT
        invariant
            n <= DRAW_LIMIT,
            eng.wf(),
            range != 0,
            bucket == bucket_size(range),
            bucket > 0,
            eng@ == mt_after(s, n as nat),
            s == old(eng)@,
            forall|j: nat| j < n ==> bucket_of(mt_output(#[trigger] mt_after(s, j)), range) > range,
        decreases DRAW_LIMIT - n,
    {
        let v: u64 = eng.next_u32() as u64 / bucket;
        n += 1;
        assert(eng@ == mt_after(s, n as nat));
        if v <= range {
            assert(drawn(s, range, v as int, n as nat));
            return Some(v);
        }
    }
    proof {
        reveal(gives_out);
    }
    None
}

/// Two entries exchanged.
pub open spec fn swapped<T>(s: Seq<T>, i: int, j: int) -> Seq<T> {
    s.update(i, s[j]).update(j, s[i])
}

/// A list with each position from the last to the second exchanged with the one picked for it.
pub open spec fn shuffled<T>(s: Seq<T>, picks: Seq<int>, k: int) -> Seq<T>
    decreases k,
{
    if k <= 0 { s } else { swapped(shuffled(s, picks, k - 1), s.len() - k, picks[k - 1]) }
}

/// How many numbers were taken for the picks before the `k`-th.
pub open spec fn taken_before(counts: Seq<nat>, k: int) -> nat {
    if k <= 0 { 0 } else { counts[k - 1] }
}

/// Whether the `k`-th pick is what a generator gives in `0..=n - 1 - k` once the picks before it are
/// made.
pub open spec fn pick_from(s: MtState, picks: Seq<int>, counts: Seq<nat>, n: int, k: int) -> bool {
    let from = taken_before(counts, k);
    &&& from <= counts[k]
    &&& drawn(mt_after(s, from), (n - 1 - k) as u64, picks[k], (counts[k] - from) as nat)
    &&& 0 <= picks[k] <= n - 1 - k
}

/// Whether the picks come from a generator in order, `counts[k]` numbers having been taken for the
/// picks up to the `k`-th.
pub open spec fn picked(s: MtState, picks: Seq<int>, counts: Seq<nat>, n: int) -> bool {
    &&& picks.len() == counts.len()
    &&& forall|k: int| 0 <= k < picks.len() ==> #[trigger] pick_from(s, picks, counts, n, k)
}

/// Whether `t` is `s` shuffled by a generator, which is left in state `after`.
#[verifier::opaque]
pub open spec fn shuffled_by<T>(s: Seq<T>, t: Seq<T>, g: MtState, after: MtState) -> bool {
    if s.len() <= 1 {
        t == s && after == g
    } else {
        exists|picks: Seq<int>, counts: Seq<nat>| {
            &&& picks.len() == s.len() - 1
            &&& #[trigger] picked(g, picks, counts, s.len() as int)
            &&& t == shuffled(s, picks, s.len() - 1)
            &&& after == mt_after(g, counts.last())
        }
    }
}

/// Whether `t` is what is left of `s` where a generator gives out during the shuffle: some picks are made and their
/// places exchanged, and for the next pick all numbers are refused. The generator is left in state `after`.
#[verifier::opaque]
pub open spec fn stopped_by<T>(s: Seq<T>, t: Seq<T>, g: MtState, after: MtState) -> bool {
    exists|picks: Seq<int>, counts: Seq<nat>| {
        &&& picks.len() < s.len() - 1
        &&& #[trigger] picked(g, picks, counts, s.len() as int)
        &&& gives_out(mt_after(g, taken_before(counts, counts.len() as int)), (s.len() - 1 - picks.len()) as u64)
        &&& t == shuffled(s, picks, picks.len() as int)
        &&& after == mt_after(g, taken_before(counts, counts.len() as int) + DRAW_LIMIT as nat)
    }
}

/// Whether a generator gives out during the shuffle of a list.
pub open spec fn gives_out_within<T>(s: Seq<T>, g: MtState) -> bool {
    exists|t: Seq<T>, after: MtState| #[trigger] stopped_by(s, t, g, after)
}

/// Whether a shuffle ends with a list and a state, done or not.
pub open spec fn shuffle_ends<T>(s: Seq<T>, g: MtState, t: Seq<T>, after: MtState, done: bool) -> bool {
    if done { shuffled_by(s, t, g, after) } else { stopped_by(s, t, g, after) }
}

proof fn lemma_after_add(s: MtState, a: nat, b: nat)
    ensures
        mt_after(mt_after(s, a), b) == mt_after(s, a + b),
    decreases b,
{
    if b > 0 {
        lemma_after_add(s, a, (b - 1) as nat);
        assert(mt_after(s, a + b) == mt_next(mt_after(s, (a + b - 1) as nat)));
    }
}

proof fn lemma_shuffled_len<T>(s: Seq<T>, picks: Seq<int>, k: int)
    requires
        k <= picks.len(),
        k <= s.len(),
        forall|i: int| 0 <= i < picks.len() ==> 0 <= #[trigger] picks[i] <= s.len() - 1 - i,
    ensures
        shuffled(s, picks, k).len() == s.len(),
    decreases k,
{
    if k > 0 {
        lemma_shuffled_len(s, picks, k - 1);
    }
}

/// A shuffle looks at no more picks than it makes.
proof fn lemma_shuffled_prefix<T>(s: Seq<T>, a: Seq<int>, b: Seq<int>, k: int)
    requires
        k <= a.len(),
        k <= b.len(),
        forall|i: int| 0 <= i < k ==> a[i] == b[i],
    ensures
        shuffled(s, a, k) == shuffled(s, b, k),
    decreases k,
{
    if k > 0 {
        lemma_shuffled_prefix(s, a, b, k - 1);
    }
}

/// Shuffles a list from the back: each position is exchanged with one drawn from those up to it.
/// Returns false when the generator would not give a number (see [`DRAW_LIMIT`]): the places before
/// are exchanged by then, and the refused numbers are taken.
pub fn utl_shuffle<T>(v: &mut Vec<T>, g: &mut Mt19937) -> (done: bool)
    requires
        old(g).wf(),
        old(v)@.len() <= 0x1_0000_0000,
    ensures
        final(g).wf(),
        shuffle_ends(old(v)@, old(g)@, final(v)@, final(g)@, done),
        final(v)@.to_multiset() == old(v)@.to_multiset(),
{
    let ghost s = v@;
    let ghost n = s.len() as int;
    let ghost g0 = g@;
    let ghost mut picks: Seq<int> = Seq::empty();
    let ghost mut counts: Seq<nat> = Seq::empty();
    let mut tail: Vec<T> = Vec::new();
    let mut done = true;
    proof {
        assert(v@ + tail@.reverse() =~= shuffled(s, picks, 0));
    }
    while done && v.len() > 1
        invariant
            n == s.len() <= 0x1_0000_0000,
            g.wf(),
            v@.len() + tail@.len() == n,
            picks.len() == tail@.len(),
            picks.len() == 0 || picks.len() < n,
            picked(g0, picks, counts, n),
            g@ == mt_after(g0, taken_before(counts, counts.len() as int) + (if done { 0nat } else { DRAW_LIMIT as nat })),
            !done ==> picks.len() < n - 1 && gives_out(mt_after(g0, taken_before(counts, counts.len() as int)), (n - 1 - picks.len()) as u64),
            v@ + tail@.reverse() == shuffled(s, picks, picks.len() as int),
        decreases v@.len(), (if done { 1int } else { 0int }),
    {
        let i: usize = v.len() - 1;
        let ghost before = v@;
        let ghost (p0, c0) = (picks, counts);
        let ghost from = taken_before(counts, counts.len() as int);
        let ghost cur = g@;
        match boost_uniform(g, i as u64) {
            None => {
                assert(i as int == n - 1 - picks.len());
                assert(gives_out(mt_after(g0, from), i as u64));
                proof {
                    lemma_after_add(g0, from, DRAW_LIMIT as nat);
                }
                done = false;
            },
            Some(j64) => {
                proof {
                    let m = choose|m: nat| #[trigger] drawn(cur, i as u64, j64 as int, m) && g@ == mt_after(cur, m);
                    assert(drawn(cur, i as u64, j64 as int, m));
                    picks = picks.push(j64 as int);
                    counts = counts.push(from + m);
                    lemma_after_add(g0, from, m);
                    assert forall|k: int| 0 <= k < picks.len() implies #[trigger] pick_from(g0, picks, counts, n, k) by {
                        if k < p0.len() {
                            assert(pick_from(g0, p0, c0, n, k));
                            assert(picks[k] == p0[k]);
                            assert(counts[k] == c0[k]);
                            assert(taken_before(counts, k) == taken_before(c0, k));
                        } else {
                            assert(taken_before(counts, k) == from);
                            assert(n - 1 - k == i);
                        }
                    }
                }
                let j: usize = j64 as usize;
                let x = v.swap_remove(j);
                let ghost t0 = tail@;
                tail.push(x);
                proof {
                    let k = picks.len() as int;
                    assert forall|a: int| 0 <= a < p0.len() implies 0 <= #[trigger] p0[a] <= n - 1 - a by {
                        assert(pick_from(g0, p0, c0, n, a));
                    }
                    lemma_shuffled_prefix(s, p0, picks, k - 1);
                    lemma_shuffled_len(s, p0, k - 1);
                    let old_all = before + t0.reverse();
                    assert(swapped(old_all, i as int, j as int) =~= v@ + tail@.reverse());
                }
            },
        }
    }
    let ghost k = tail@.len() as int;
    let ghost all = v@ + tail@.reverse();
    while tail.len() > 0
        invariant
            v@ + tail@.reverse() == all,
        decreases tail@.len(),
    {
        let ghost (v0, t0) = (v@, tail@);
        match tail.pop() {
            Some(x) => {
                v.push(x);
                assert(v@ + tail@.reverse() =~= v0 + t0.reverse());
            },
            None => {},
        }
    }
    proof {
        assert(v@ =~= all);
        assert forall|a: int| 0 <= a < picks.len() implies 0 <= #[trigger] picks[a] <= n - 1 - a by {
            assert(pick_from(g0, picks, counts, n, a));
        }
        lemma_shuffled_permutes(s, picks, k, n);
        reveal(shuffled_by);
        reveal(stopped_by);
        if done && n > 1 {
            assert(picked(g0, picks, counts, n));
        }
        if !done {
            assert(picked(g0, picks, counts, s.len() as int));
        }
        if done && n <= 1 {
            assert(shuffled(s, picks, 0) == s);
        }
    }
    done
}

proof fn lemma_drawn_once(s: MtState, range: u64, v: int, n: nat, w: int, m: nat)
    requires
        drawn(s, range, v, n),
        drawn(s, range, w, m),
    ensures
        v == w,
        n == m,
{
    if range != 0 {
        if n < m {
            assert(bucket_of(mt_output(mt_after(s, (n - 1) as nat)), range) > range);
        }
        if m < n {
            assert(bucket_of(mt_output(mt_after(s, (m - 1) as nat)), range) > range);
        }
    }
}

proof fn lemma_picked_once(s: MtState, p: Seq<int>, c: Seq<nat>, q: Seq<int>, d: Seq<nat>, n: int, k: int)
    requires
        picked(s, p, c, n),
        picked(s, q, d, n),
        0 <= k <= p.len(),
        k <= q.len(),
    ensures
        forall|i: int| 0 <= i < k ==> #[trigger] p[i] == q[i],
        forall|i: int| 0 <= i < k ==> #[trigger] c[i] == d[i],
    decreases k,
{
    if k > 0 {
        lemma_picked_once(s, p, c, q, d, n, k - 1);
        assert(pick_from(s, p, c, n, k - 1) && pick_from(s, q, d, n, k - 1));
        let from = taken_before(c, k - 1);
        assert(from == taken_before(d, k - 1));
        lemma_drawn_once(mt_after(s, from), (n - k) as u64, p[k - 1], (c[k - 1] - from) as nat, q[k - 1], (d[k - 1] - from) as nat);
    }
}

proof fn lemma_gives_out_once(s: MtState, p: Seq<int>, c: Seq<nat>, q: Seq<int>, d: Seq<nat>, n: int)
    requires
        picked(s, p, c, n),
        picked(s, q, d, n),
        p.len() < n - 1,
        gives_out(mt_after(s, taken_before(c, c.len() as int)), (n - 1 - p.len()) as u64),
        n <= 0x1_0000_0000,
    ensures
        q.len() <= p.len(),
{
    reveal(gives_out);
    if q.len() > p.len() {
        let k = p.len() as int;
        lemma_picked_once(s, p, c, q, d, n, k);
        assert(pick_from(s, q, d, n, k));
        let from = taken_before(d, k);
        assert(from == taken_before(c, k));
        let m = (d[k] - from) as nat;
        assert(bucket_of(mt_output(mt_after(mt_after(s, from), (m - 1) as nat)), (n - 1 - k) as u64) > (n - 1 - k) as u64);
    }
}

/// Equal lists are shuffled alike by generators in one state, which end in one state. Either both are done, or in
/// both the generator gives out at the same pick, with the same places exchanged. A list of one entry or none stays
/// as it is and takes no number.
pub proof fn a_shuffle_has_one_outcome<T>(s: Seq<T>, g: MtState, t: Seq<T>, after: MtState, done: bool, other: Seq<T>, other_after: MtState, other_done: bool)
    requires
        s.len() <= 0x1_0000_0000,
        shuffle_ends(s, g, t, after, done),
        shuffle_ends(s, g, other, other_after, other_done),
    ensures
        done == other_done,
        t == other,
        after == other_after,
        s.len() <= 1 ==> done && t == s && after == g,
        t.len() == s.len(),
        t.to_multiset() == s.to_multiset(),
{
    reveal(shuffled_by);
    reveal(stopped_by);
    let n = s.len() as int;
    if n > 1 {
        let (p, c) = lemma_picks(s, g, t, after, done);
        let (q, d) = lemma_picks(s, g, other, other_after, other_done);
        if !done {
            lemma_gives_out_once(g, p, c, q, d, n);
        }
        if !other_done {
            lemma_gives_out_once(g, q, d, p, c, n);
        }
        lemma_picked_once(g, p, c, q, d, n, p.len() as int);
        assert(p =~= q);
        assert(c =~= d);
        assert forall|a: int| 0 <= a < p.len() implies 0 <= #[trigger] p[a] <= n - 1 - a by {
            assert(pick_from(g, p, c, n, a));
        }
        lemma_shuffled_permutes(s, p, p.len() as int, n);
        lemma_shuffled_len(s, p, p.len() as int);
    }
}

/// The picks of a shuffle, and how many numbers were taken for each.
proof fn lemma_picks<T>(s: Seq<T>, g: MtState, t: Seq<T>, after: MtState, done: bool) -> (r: (Seq<int>, Seq<nat>))
    requires
        s.len() > 1,
        shuffle_ends(s, g, t, after, done),
    ensures
        ({
            let (picks, counts) = r;
            let taken = taken_before(counts, counts.len() as int);
            &&& picked(g, picks, counts, s.len() as int)
            &&& t == shuffled(s, picks, picks.len() as int)
            &&& if done {
                picks.len() == s.len() - 1 && after == mt_after(g, taken)
            } else {
                &&& picks.len() < s.len() - 1
                &&& gives_out(mt_after(g, taken), (s.len() - 1 - picks.len()) as u64)
                &&& after == mt_after(g, taken + DRAW_LIMIT as nat)
            }
        }),
{
    reveal(shuffled_by);
    reveal(stopped_by);
    if done {
        let (picks, counts) = choose|picks: Seq<int>, counts: Seq<nat>| {
            &&& picks.len() == s.len() - 1
            &&& #[trigger] picked(g, picks, counts, s.len() as int)
            &&& t == shuffled(s, picks, s.len() - 1)
            &&& after == mt_after(g, counts.last())
        };
        (picks, counts)
    } else {
        let (picks, counts) = choose|picks: Seq<int>, counts: Seq<nat>| {
            &&& picks.len() < s.len() - 1
            &&& #[trigger] picked(g, picks, counts, s.len() as int)
            &&& gives_out(mt_after(g, taken_before(counts, counts.len() as int)), (s.len() - 1 - picks.len()) as u64)
            &&& t == shuffled(s, picks, picks.len() as int)
            &&& after == mt_after(g, taken_before(counts, counts.len() as int) + DRAW_LIMIT as nat)
        };
        (picks, counts)
    }
}

proof fn lemma_shuffled_permutes<T>(s: Seq<T>, picks: Seq<int>, k: int, n: int)
    requires
        n == s.len(),
        0 <= k <= picks.len(),
        k == 0 || k < n,
        forall|i: int| 0 <= i < picks.len() ==> 0 <= #[trigger] picks[i] <= n - 1 - i,
    ensures
        shuffled(s, picks, k).to_multiset() == s.to_multiset(),
    decreases k,
{
    if k > 0 {
        lemma_shuffled_permutes(s, picks, k - 1, n);
        let t = shuffled(s, picks, k - 1);
        lemma_shuffled_len(s, picks, k - 1);
        let (i, j) = (n - k, picks[k - 1]);
        broadcast use vstd::multiset::group_multiset_axioms;
        broadcast use vstd::seq_lib::group_to_multiset_ensures;

        vstd::seq_lib::to_multiset_update(t, i, t[j]);
        vstd::seq_lib::to_multiset_update(t.update(i, t[j]), j, t[i]);
        assert(swapped(t, i, j).to_multiset() =~= t.to_multiset());
    }
}

/// One overflowing 2D cell: `(j, i, capacity, usage)` in grid indices.
pub type CongestedCell = (i32, i32, i32, i32);

/// A net's routed tree edges, each its grid points in order.
pub struct CrossingNet<'a> {
    pub name: &'a str,
    /// The database id, which orders a marker's sources.
    pub id: u32,
    pub edges: &'a [Vec<(i32, i32)>],
}

/// One marker: its cell centre, capacity, usage and source nets, by database id.
#[derive(Debug)]
pub struct CongestionMarker {
    pub x: i32,
    pub y: i32,
    pub capacity: i32,
    pub usage: i32,
    pub sources: Vec<String>,
}

/// A value saturated to `i32`.
pub open spec fn saturated(v: int) -> int {
    if v > i32::MAX {
        i32::MAX as int
    } else if v < i32::MIN {
        i32::MIN as int
    } else {
        v
    }
}

/// The centre of cell `j`, half a tile past its corner, truncated toward zero.
pub open spec fn centre(tile: int, j: int, corner: int) -> int {
    saturated(tdiv(tile * (2 * j + 1) + 2 * corner, 2))
}

fn centre_of(tile: i32, j: i32, corner: i32) -> (r: i32)
    ensures
        r == centre(tile as int, j as int, corner as int),
{
    let d: i128 = 2 * (j as i128) + 1;
    assert(-0x1_0000_0000_0000_0000_0000 < tile * d < 0x1_0000_0000_0000_0000_0000) by (nonlinear_arith)
        requires
            -0x8000_0000 <= tile <= 0x7fff_ffff,
            -0x1_0000_0000 <= d <= 0x1_0000_0000,
    ;
    let n: i128 = tile as i128 * d + 2 * (corner as i128);
    let h: i128 = n / 2;
    if h > i32::MAX as i128 {
        i32::MAX
    } else if h < i32::MIN as i128 {
        i32::MIN
    } else {
        h as i32
    }
}

/// What places cells: the tile size and the grid's corner.
#[derive(Debug, Clone, Copy)]
pub struct Placement {
    pub tile: i32,
    pub corner: (i32, i32),
}

/// The centre of a cell.
pub open spec fn placed(p: Placement, c: (i32, i32)) -> (int, int) {
    (centre(p.tile as int, c.0 as int, p.corner.0 as int), centre(p.tile as int, c.1 as int, p.corner.1 as int))
}

/// The capacity and usage of the last of the first `n` cells with a centre.
pub open spec fn last_at(cells: Seq<CongestedCell>, p: Placement, key: (int, int), n: int) -> Option<(i32, i32)>
    decreases n,
{
    if n <= 0 {
        None
    } else {
        let c = cells[n - 1];
        if placed(p, (c.0, c.1)) == key { Some((c.2, c.3)) } else { last_at(cells, p, key, n - 1) }
    }
}

/// Whether step `c` of edge `b` of net `a` runs along a direction and has its lower-left end at a
/// centre.
pub open spec fn hits(nets: Seq<CrossingNet>, p: Placement, vertical: bool, key: (int, int), a: int, b: int, c: int) -> bool {
    let (u, v) = (placed(p, nets[a].edges@[b]@[c - 1]), placed(p, nets[a].edges@[b]@[c]));
    &&& 0 <= a < nets.len()
    &&& 0 <= b < nets[a].edges@.len()
    &&& 1 <= c < nets[a].edges@[b]@.len()
    &&& u != v
    &&& (u.0 == v.0) == vertical
    &&& key == (if u.0 < v.0 { u.0 } else { v.0 }, if u.1 < v.1 { u.1 } else { v.1 })
}

/// Whether step `(a, b, c)` comes before step `(n, e, s)`.
pub open spec fn step_before(a: int, b: int, c: int, n: int, e: int, s: int) -> bool {
    a < n || (a == n && (b < e || (b == e && c < s)))
}

/// Whether a net crosses a cell along a direction, in one of the steps before `(n, e, s)`.
pub open spec fn crosses_before(
    nets: Seq<CrossingNet>, p: Placement, vertical: bool, key: (int, int), net: (u32, Seq<char>), n: int, e: int, s: int,
) -> bool {
    exists|a: int, b: int, c: int|
        #[trigger] hits(nets, p, vertical, key, a, b, c) && step_before(a, b, c, n, e, s) && nets[a].id == net.0 && nets[a].name@ == net.1
}

/// Whether a net crosses a cell along a direction.
pub open spec fn crosses(nets: Seq<CrossingNet>, p: Placement, vertical: bool, key: (int, int), net: (u32, Seq<char>)) -> bool {
    crosses_before(nets, p, vertical, key, net, nets.len() as int, 0, 0)
}

/// Whether a source comes before another: by id, then by name.
pub open spec fn source_less(a: (u32, Seq<char>), b: (u32, Seq<char>)) -> bool {
    a.0 < b.0 || (a.0 == b.0 && text_less(a.1, b.1))
}

/// Whether the sources ascend.
pub open spec fn sources_sorted(s: Seq<(u32, Seq<char>)>) -> bool {
    forall|i: int, j: int| 0 <= i < j < s.len() ==> source_less(#[trigger] s[i], #[trigger] s[j])
}

/// Whether `names` are those of exactly the nets crossing a cell, by id.
pub open spec fn names_crossing(
    names: Seq<Seq<char>>, nets: Seq<CrossingNet>, p: Placement, vertical: bool, key: (int, int),
) -> bool {
    exists|s: Seq<(u32, Seq<char>)>| {
        &&& #[trigger] sources_sorted(s)
        &&& forall|q: (u32, Seq<char>)| s.contains(q) <==> #[trigger] crosses(nets, p, vertical, key, q)
        &&& names == s.map_values(|q: (u32, Seq<char>)| q.1)
    }
}

/// Whether a cell centre comes before another: by `x`, then by `y`.
pub open spec fn key_less(a: (int, int), b: (int, int)) -> bool {
    a.0 < b.0 || (a.0 == b.0 && a.1 < b.1)
}

/// A marker's cell centre.
pub open spec fn marker_key(m: CongestionMarker) -> (int, int) {
    (m.x as int, m.y as int)
}

/// The markers of one direction: one for each overflowing cell's centre, ascending, with the last
/// such cell's numbers and the nets crossing it.
#[verifier::opaque]
pub open spec fn markers_of(
    r: Seq<CongestionMarker>, cells: Seq<CongestedCell>, nets: Seq<CrossingNet>, p: Placement, vertical: bool,
) -> bool {
    &&& forall|i: int, j: int| 0 <= i < j < r.len() ==> key_less(marker_key(#[trigger] r[i]), marker_key(#[trigger] r[j]))
    &&& forall|i: int| 0 <= i < r.len() ==> {
        &&& last_at(cells, p, marker_key(#[trigger] r[i]), cells.len() as int) == Some((r[i].capacity, r[i].usage))
        &&& names_crossing(texts(r[i].sources@), nets, p, vertical, marker_key(r[i]))
    }
    &&& forall|key: (int, int)| #[trigger] last_at(cells, p, key, cells.len() as int) is Some ==> exists|i: int|
        0 <= i < r.len() && marker_key(#[trigger] r[i]) == key
}

/// A cell while its sources are collected.
struct Cell {
    x: i32,
    y: i32,
    capacity: i32,
    usage: i32,
    sources: Vec<(u32, String)>,
}

spec fn cell_key(c: Cell) -> (int, int) {
    (c.x as int, c.y as int)
}

spec fn pairs(v: Seq<(u32, String)>) -> Seq<(u32, Seq<char>)> {
    v.map_values(|q: (u32, String)| (q.0, q.1@))
}

spec fn cells_sorted(v: Seq<Cell>) -> bool {
    forall|i: int, j: int| 0 <= i < j < v.len() ==> key_less(cell_key(#[trigger] v[i]), cell_key(#[trigger] v[j]))
}

/// Adds a source to an ascending list, once.
fn add_source(v: &mut Vec<(u32, String)>, id: u32, name: &str)
    requires
        sources_sorted(pairs(old(v)@)),
    ensures
        sources_sorted(pairs(final(v)@)),
        forall|q: (u32, Seq<char>)| #[trigger] pairs(final(v)@).contains(q) <==> pairs(old(v)@).contains(q) || q == (id, name@),
{
    let ghost s = pairs(v@);
    let ghost new = (id, name@);
    let mut i: usize = 0;
    while i < v.len() && (v[i].0 < id || (v[i].0 == id && is_text_less(v[i].1.as_str(), name)))
        invariant
            i <= v@.len(),
            s == pairs(v@),
            new == (id, name@),
            forall|j: int| 0 <= j < i ==> source_less(#[trigger] s[j], new),
        decreases v@.len() - i,
    {
        i += 1;
    }
    if i < v.len() && v[i].0 == id && same_text(v[i].1.as_str(), name) {
        proof {
            assert(s[i as int] == new);
            assert forall|q: (u32, Seq<char>)| #[trigger] s.contains(q) <==> s.contains(q) || q == new by {}
        }
        return;
    }
    let ghost v0 = v@;
    v.insert(i, (id, String::from_str(name)));
    proof {
        let t = pairs(v@);
        assert(t =~= s.insert(i as int, new));
        if i < s.len() {
            lemma_text_order(s[i as int].1, name@);
            assert(source_less(new, s[i as int]));
        }
        assert forall|a: int, b: int| 0 <= a < b < t.len() implies source_less(#[trigger] t[a], #[trigger] t[b]) by {
            if a < i && b < i {
                assert(t[a] == s[a] && t[b] == s[b]);
            } else if a < i && b == i {
                assert(t[a] == s[a]);
            } else if a < i {
                assert(t[a] == s[a] && t[b] == s[b - 1]);
            } else if a == i {
                assert(t[b] == s[b - 1]);
                if b - 1 > i {
                    assert(source_less(s[i as int], s[b - 1]));
                    lemma_source_trans(new, s[i as int], s[b - 1]);
                }
            } else {
                assert(t[a] == s[a - 1] && t[b] == s[b - 1]);
            }
        }
        assert forall|q: (u32, Seq<char>)| #[trigger] t.contains(q) <==> s.contains(q) || q == new by {
            if t.contains(q) {
                let a = choose|a: int| 0 <= a < t.len() && t[a] == q;
                if a < i {
                    assert(s[a] == q);
                } else if a > i {
                    assert(s[a - 1] == q);
                }
            }
            if s.contains(q) {
                let a = choose|a: int| 0 <= a < s.len() && s[a] == q;
                if a < i {
                    assert(t[a] == q);
                } else {
                    assert(t[a + 1] == q);
                }
            }
            if q == new {
                assert(t[i as int] == q);
            }
        }
    }
}

proof fn lemma_source_trans(a: (u32, Seq<char>), b: (u32, Seq<char>), c: (u32, Seq<char>))
    requires
        source_less(a, b),
        source_less(b, c),
    ensures
        source_less(a, c),
{
    if a.0 == b.0 && b.0 == c.0 {
        lemma_text_less_trans(a.1, b.1, c.1);
    }
}

/// Adds a cell to an ascending list, replacing the numbers of one at its place.
fn add_cell(v: &mut Vec<Cell>, x: i32, y: i32, capacity: i32, usage: i32)
    requires
        cells_sorted(old(v)@),
        forall|i: int| 0 <= i < old(v)@.len() ==> (#[trigger] old(v)@[i]).sources@.len() == 0,
    ensures
        cells_sorted(final(v)@),
        forall|i: int| 0 <= i < final(v)@.len() ==> (#[trigger] final(v)@[i]).sources@.len() == 0,
        forall|i: int| 0 <= i < final(v)@.len() ==> {
            let c = #[trigger] final(v)@[i];
            if cell_key(c) == (x as int, y as int) {
                c.capacity == capacity && c.usage == usage
            } else {
                exists|j: int| 0 <= j < old(v)@.len() && cell_key(#[trigger] old(v)@[j]) == cell_key(c) && old(v)@[j].capacity == c.capacity
                    && old(v)@[j].usage == c.usage
            }
        },
        exists|i: int| 0 <= i < final(v)@.len() && cell_key(#[trigger] final(v)@[i]) == (x as int, y as int),
        forall|j: int| 0 <= j < old(v)@.len() ==> has_key(final(v)@, cell_key(#[trigger] old(v)@[j])),
{
    let ghost s = v@;
    let mut i: usize = 0;
    while i < v.len() && (v[i].x < x || (v[i].x == x && v[i].y < y))
        invariant
            i <= v@.len(),
            v@ == s,
            forall|j: int| 0 <= j < i ==> key_less(cell_key(#[trigger] s[j]), (x as int, y as int)),
        decreases v@.len() - i,
    {
        i += 1;
    }
    if i < v.len() && v[i].x == x && v[i].y == y {
        v[i] = Cell { x, y, capacity, usage, sources: Vec::new() };
        proof {
            let t = v@;
            assert forall|a: int| 0 <= a < t.len() implies cell_key(#[trigger] t[a]) == cell_key(s[a]) && (a != i ==> t[a] == s[a]) by {}
            assert forall|a: int| 0 <= a < t.len() && cell_key(#[trigger] t[a]) == (x as int, y as int) implies a == i by {
                if a < i {
                    assert(key_less(cell_key(s[a]), cell_key(s[i as int])));
                } else if a > i {
                    assert(key_less(cell_key(s[i as int]), cell_key(s[a])));
                }
            }
            assert forall|j: int| 0 <= j < s.len() implies has_key(t, cell_key(#[trigger] s[j])) by {
                assert(cell_key(t[j]) == cell_key(s[j]));
            }
            assert(cell_key(t[i as int]) == (x as int, y as int));
        }
        return;
    }
    v.insert(i, Cell { x, y, capacity, usage, sources: Vec::new() });
    proof {
        let t = v@;
        let new = t[i as int];
        assert(t =~= s.insert(i as int, new));
        if i < s.len() {
            assert(key_less(cell_key(new), cell_key(s[i as int])));
        }
        assert forall|a: int, b: int| 0 <= a < b < t.len() implies key_less(cell_key(#[trigger] t[a]), cell_key(#[trigger] t[b])) by {
            if b < i {
                assert(t[a] == s[a] && t[b] == s[b]);
            } else if b == i {
                assert(t[a] == s[a]);
            } else if a < i {
                assert(t[a] == s[a] && t[b] == s[b - 1]);
            } else if a == i {
                assert(t[b] == s[b - 1]);
                if b - 1 > i {
                    assert(key_less(cell_key(s[i as int]), cell_key(s[b - 1])));
                }
            } else {
                assert(t[a] == s[a - 1] && t[b] == s[b - 1]);
            }
        }
        assert forall|a: int| 0 <= a < t.len() implies {
            let c = #[trigger] t[a];
            if cell_key(c) == (x as int, y as int) {
                c.capacity == capacity && c.usage == usage
            } else {
                exists|j: int| 0 <= j < s.len() && cell_key(#[trigger] s[j]) == cell_key(c) && s[j].capacity == c.capacity
                    && s[j].usage == c.usage
            }
        } by {
            if a < i {
                assert(t[a] == s[a]);
            } else if a > i {
                assert(t[a] == s[a - 1]);
                assert(key_less(cell_key(t[i as int]), cell_key(t[a])));
            }
        }
        assert forall|a: int| 0 <= a < t.len() implies (#[trigger] t[a]).sources@.len() == 0 by {
            if a < i {
                assert(t[a] == s[a]);
            } else if a > i {
                assert(t[a] == s[a - 1]);
            }
        }
        assert forall|j: int| 0 <= j < s.len() implies has_key(t, cell_key(#[trigger] s[j])) by {
            if j < i {
                assert(t[j] == s[j]);
            } else {
                assert(t[j + 1] == s[j]);
            }
        }
        assert(cell_key(t[i as int]) == (x as int, y as int));
    }
}

spec fn has_key(v: Seq<Cell>, key: (int, int)) -> bool {
    exists|i: int| 0 <= i < v.len() && cell_key(#[trigger] v[i]) == key
}

/// The cells' numbers collected: the last of each centre.
spec fn cells_collected(v: Seq<Cell>, cells: Seq<CongestedCell>, p: Placement, n: int) -> bool {
    &&& cells_sorted(v)
    &&& forall|i: int| 0 <= i < v.len() ==> last_at(cells, p, cell_key(#[trigger] v[i]), n) == Some((v[i].capacity, v[i].usage))
    &&& forall|key: (int, int)| #[trigger] last_at(cells, p, key, n) is Some ==> has_key(v, key)
}

/// The sources collected from the steps before `(n, e, s)`.
spec fn sources_collected(v: Seq<Cell>, nets: Seq<CrossingNet>, p: Placement, vertical: bool, n: int, e: int, s: int) -> bool {
    forall|i: int| 0 <= i < v.len() ==> {
        &&& sources_sorted(pairs((#[trigger] v[i]).sources@))
        &&& forall|q: (u32, Seq<char>)| #[trigger] pairs(v[i].sources@).contains(q) <==> crosses_before(
            nets, p, vertical, cell_key(v[i]), q, n, e, s)
    }
}

/// Records a step's net at the cell of its lower-left end.
fn add_step(v: &mut Vec<Cell>, key: (i32, i32), id: u32, name: &str)
    requires
        cells_sorted(old(v)@),
        forall|i: int| 0 <= i < old(v)@.len() ==> sources_sorted(pairs((#[trigger] old(v)@[i]).sources@)),
    ensures
        final(v)@.len() == old(v)@.len(),
        forall|i: int| 0 <= i < old(v)@.len() ==> {
            let (a, b) = (old(v)@[i], #[trigger] final(v)@[i]);
            &&& cell_key(b) == cell_key(a) && b.capacity == a.capacity && b.usage == a.usage
            &&& sources_sorted(pairs(b.sources@))
            &&& forall|q: (u32, Seq<char>)| #[trigger] pairs(b.sources@).contains(q) <==> pairs(a.sources@).contains(q) || (cell_key(a)
                == (key.0 as int, key.1 as int) && q == (id, name@))
        },
{
    let ghost s = v@;
    let mut i: usize = 0;
    while i < v.len()
        invariant
            i <= v@.len(),
            v@ == s,
            cells_sorted(s),
            s == old(v)@,
            forall|i: int| 0 <= i < s.len() ==> sources_sorted(pairs((#[trigger] s[i]).sources@)),
            forall|j: int| 0 <= j < i ==> cell_key(#[trigger] s[j]) != (key.0 as int, key.1 as int),
        decreases v@.len() - i,
    {
        if v[i].x == key.0 && v[i].y == key.1 {
            add_source(&mut v[i].sources, id, name);
            proof {
                assert forall|j: int| 0 <= j < s.len() && j != i implies cell_key(#[trigger] s[j]) != (key.0 as int, key.1 as int) by {
                    if j < i {
                        assert(key_less(cell_key(s[j]), cell_key(s[i as int])));
                    } else {
                        assert(key_less(cell_key(s[i as int]), cell_key(s[j])));
                    }
                }
            }
            return;
        }
        i += 1;
    }
}

/// The overflowing cells of one direction by their centres, each with the nets whose routed steps
/// along that direction have their lower-left end there.
fn congestion_grid(cells: &[CongestedCell], nets: &[CrossingNet<'_>], vertical: bool, tile: i32, corner: (i32, i32)) -> (r: Vec<CongestionMarker>)
    requires
        forall|a: int, b: int| 0 <= a < nets@.len() && 0 <= b < nets@[a].edges@.len() ==> (#[trigger] nets@[a].edges@[b])@.len() > 0,
    ensures
        markers_of(r@, cells@, nets@, (Placement { tile, corner }), vertical),
{
    let ghost p = Placement { tile, corner };
    let mut v: Vec<Cell> = Vec::new();
    let mut i: usize = 0;
    while i < cells.len()
        invariant
            i <= cells@.len(),
            p == (Placement { tile, corner }),
            cells_collected(v@, cells@, p, i as int),
            forall|j: int| 0 <= j < v@.len() ==> (#[trigger] v@[j]).sources@.len() == 0,
        decreases cells@.len() - i,
    {
        let (j, k, cap, usage) = cells[i];
        let ghost v0 = v@;
        let (x, y) = (centre_of(tile, j, corner.0), centre_of(tile, k, corner.1));
        add_cell(&mut v, x, y, cap, usage);
        proof {
            let key0 = placed(p, (j, k));
            assert(key0 == (x as int, y as int));
            assert forall|a: int| 0 <= a < v@.len() implies last_at(cells@, p, cell_key(#[trigger] v@[a]), i + 1) == Some(
                (v@[a].capacity, v@[a].usage)) by {
                if cell_key(v@[a]) != key0 {
                    let b = choose|b: int| 0 <= b < v0.len() && cell_key(#[trigger] v0[b]) == cell_key(v@[a]) && v0[b].capacity
                        == v@[a].capacity && v0[b].usage == v@[a].usage;
                    assert(last_at(cells@, p, cell_key(v0[b]), i as int) == Some((v0[b].capacity, v0[b].usage)));
                }
            }
            assert forall|key: (int, int)| #[trigger] last_at(cells@, p, key, i + 1) is Some implies has_key(v@, key) by {
                if key != key0 {
                    assert(last_at(cells@, p, key, i as int) is Some);
                    let b = choose|b: int| 0 <= b < v0.len() && cell_key(#[trigger] v0[b]) == key;
                    assert(has_key(v@, cell_key(v0[b])));
                }
            }
        }
        i += 1;
    }
    proof {
        assert forall|a: int| 0 <= a < v@.len() implies {
            &&& sources_sorted(pairs((#[trigger] v@[a]).sources@))
            &&& forall|q: (u32, Seq<char>)| #[trigger] pairs(v@[a].sources@).contains(q) <==> crosses_before(
                nets@, p, vertical, cell_key(v@[a]), q, 0, 0, 0)
        } by {}
    }
    let mut n: usize = 0;
    while n < nets.len()
        invariant
            n <= nets@.len(),
            p == (Placement { tile, corner }),
            forall|a: int, b: int| 0 <= a < nets@.len() && 0 <= b < nets@[a].edges@.len() ==> (#[trigger] nets@[a].edges@[b])@.len() > 0,
            cells_collected(v@, cells@, p, cells@.len() as int),
            sources_collected(v@, nets@, p, vertical, n as int, 0, 0),
        decreases nets@.len() - n,
    {
        let net = &nets[n];
        let mut e: usize = 0;
        while e < net.edges.len()
            invariant
                n < nets@.len(),
                *net == nets@[n as int],
                e <= net.edges@.len(),
                p == (Placement { tile, corner }),
                forall|a: int, b: int| 0 <= a < nets@.len() && 0 <= b < nets@[a].edges@.len() ==> (#[trigger] nets@[a].edges@[b])@.len() > 0,
                cells_collected(v@, cells@, p, cells@.len() as int),
                sources_collected(v@, nets@, p, vertical, n as int, e as int, 0),
            decreases net.edges@.len() - e,
        {
            let edge = &net.edges[e];
            assert(nets@[n as int].edges@[e as int]@.len() > 0);
            let (mut lx, mut ly) = (centre_of(tile, edge[0].0, corner.0), centre_of(tile, edge[0].1, corner.1));
            let mut s: usize = 1;
            proof {
                lemma_same_steps(v@, nets@, p, vertical, n as int, e as int, 0, n as int, e as int, 1);
            }
            while s < edge.len()
                invariant
                    n < nets@.len(),
                    *net == nets@[n as int],
                    e < net.edges@.len(),
                    *edge == net.edges@[e as int],
                    1 <= s <= edge@.len(),
                    p == (Placement { tile, corner }),
                    (lx as int, ly as int) == placed(p, edge@[s - 1]),
                    cells_collected(v@, cells@, p, cells@.len() as int),
                    sources_collected(v@, nets@, p, vertical, n as int, e as int, s as int),
                decreases edge@.len() - s,
            {
                let ghost v0 = v@;
                let (x, y) = (centre_of(tile, edge[s].0, corner.0), centre_of(tile, edge[s].1, corner.1));
                assert((x as int, y as int) == placed(p, edge@[s as int]));
                if !(lx == x && ly == y) && (x == lx) == vertical {
                    let key = (lx.min(x), ly.min(y));
                    add_step(&mut v, key, net.id, net.name);
                    proof {
                        lemma_step_added(v0, v@, nets@, p, vertical, n as int, e as int, s as int, (key.0 as int, key.1 as int));
                        lemma_cells_kept(v0, v@, cells@, p);
                    }
                } else {
                    proof {
                        lemma_step_skipped(v@, nets@, p, vertical, n as int, e as int, s as int);
                    }
                }
                lx = x;
                ly = y;
                s += 1;
            }
            proof {
                lemma_same_steps(v@, nets@, p, vertical, n as int, e as int, s as int, n as int, e + 1, 0);
            }
            e += 1;
        }
        proof {
            lemma_same_steps(v@, nets@, p, vertical, n as int, e as int, 0, n + 1, 0, 0);
        }
        n += 1;
    }
    finish_markers(v, Ghost(cells@), nets, vertical, Ghost(p))
}

/// Two step positions with no step between them leave the same steps before.
proof fn lemma_same_steps(
    v: Seq<Cell>, nets: Seq<CrossingNet>, p: Placement, vertical: bool, n: int, e: int, s: int, n2: int, e2: int, s2: int,
)
    requires
        sources_collected(v, nets, p, vertical, n, e, s),
        forall|a: int, b: int, c: int| #![trigger nets[a].edges@[b]@[c]] 0 <= a < nets.len() && 0 <= b < nets[a].edges@.len() && 1 <= c < nets[a].edges@[b]@.len() ==> step_before(a, b, c, n, e, s)
            == step_before(a, b, c, n2, e2, s2),
    ensures
        sources_collected(v, nets, p, vertical, n2, e2, s2),
{
    assert forall|i: int| 0 <= i < v.len() implies {
        &&& sources_sorted(pairs((#[trigger] v[i]).sources@))
        &&& forall|q: (u32, Seq<char>)| #[trigger] pairs(v[i].sources@).contains(q) <==> crosses_before(
            nets, p, vertical, cell_key(v[i]), q, n2, e2, s2)
    } by {
        let key = cell_key(v[i]);
        assert forall|q: (u32, Seq<char>)| crosses_before(nets, p, vertical, key, q, n, e, s) == crosses_before(
            nets, p, vertical, key, q, n2, e2, s2) by {
            if crosses_before(nets, p, vertical, key, q, n, e, s) {
                let (a, b, c) = choose|a: int, b: int, c: int|
                    #[trigger] hits(nets, p, vertical, key, a, b, c) && step_before(a, b, c, n, e, s) && nets[a].id == q.0 && nets[a].name@ == q.1;
                assert(nets[a].edges@[b]@[c] == nets[a].edges@[b]@[c]);
                assert(hits(nets, p, vertical, key, a, b, c) && step_before(a, b, c, n2, e2, s2));
            }
            if crosses_before(nets, p, vertical, key, q, n2, e2, s2) {
                let (a, b, c) = choose|a: int, b: int, c: int|
                    #[trigger] hits(nets, p, vertical, key, a, b, c) && step_before(a, b, c, n2, e2, s2) && nets[a].id == q.0 && nets[a].name@ == q.1;
                assert(nets[a].edges@[b]@[c] == nets[a].edges@[b]@[c]);
                assert(hits(nets, p, vertical, key, a, b, c) && step_before(a, b, c, n, e, s));
            }
        }
    }
}

proof fn lemma_step_skipped(v: Seq<Cell>, nets: Seq<CrossingNet>, p: Placement, vertical: bool, n: int, e: int, s: int)
    requires
        sources_collected(v, nets, p, vertical, n, e, s),
        forall|key: (int, int)| !#[trigger] hits(nets, p, vertical, key, n, e, s),
    ensures
        sources_collected(v, nets, p, vertical, n, e, s + 1),
{
    assert forall|i: int| 0 <= i < v.len() implies {
        &&& sources_sorted(pairs((#[trigger] v[i]).sources@))
        &&& forall|q: (u32, Seq<char>)| #[trigger] pairs(v[i].sources@).contains(q) <==> crosses_before(
            nets, p, vertical, cell_key(v[i]), q, n, e, s + 1)
    } by {
        let key = cell_key(v[i]);
        assert forall|q: (u32, Seq<char>)| crosses_before(nets, p, vertical, key, q, n, e, s) == crosses_before(
            nets, p, vertical, key, q, n, e, s + 1) by {
            lemma_one_step(nets, p, vertical, key, q, n, e, s);
        }
    }
}

proof fn lemma_one_step(nets: Seq<CrossingNet>, p: Placement, vertical: bool, key: (int, int), q: (u32, Seq<char>), n: int, e: int, s: int)
    ensures
        crosses_before(nets, p, vertical, key, q, n, e, s + 1) <==> crosses_before(nets, p, vertical, key, q, n, e, s) || (hits(
            nets, p, vertical, key, n, e, s) && nets[n].id == q.0 && nets[n].name@ == q.1),
{
    if crosses_before(nets, p, vertical, key, q, n, e, s + 1) {
        let (a, b, c) = choose|a: int, b: int, c: int|
            #[trigger] hits(nets, p, vertical, key, a, b, c) && step_before(a, b, c, n, e, s + 1) && nets[a].id == q.0 && nets[a].name@ == q.1;
        assert(hits(nets, p, vertical, key, a, b, c));
        if (a, b, c) != (n, e, s) {
            assert(step_before(a, b, c, n, e, s));
        }
    }
    if crosses_before(nets, p, vertical, key, q, n, e, s) {
        let (a, b, c) = choose|a: int, b: int, c: int|
            #[trigger] hits(nets, p, vertical, key, a, b, c) && step_before(a, b, c, n, e, s) && nets[a].id == q.0 && nets[a].name@ == q.1;
        assert(hits(nets, p, vertical, key, a, b, c) && step_before(a, b, c, n, e, s + 1));
    }
}

proof fn lemma_step_added(
    v0: Seq<Cell>, v: Seq<Cell>, nets: Seq<CrossingNet>, p: Placement, vertical: bool, n: int, e: int, s: int, key: (int, int),
)
    requires
        sources_collected(v0, nets, p, vertical, n, e, s),
        hits(nets, p, vertical, key, n, e, s),
        v.len() == v0.len(),
        forall|i: int| 0 <= i < v0.len() ==> {
            let (a, b) = (v0[i], #[trigger] v[i]);
            &&& cell_key(b) == cell_key(a)
            &&& sources_sorted(pairs(b.sources@))
            &&& forall|q: (u32, Seq<char>)| #[trigger] pairs(b.sources@).contains(q) <==> pairs(a.sources@).contains(q) || (cell_key(a) == key
                && q == (nets[n].id, nets[n].name@))
        },
    ensures
        sources_collected(v, nets, p, vertical, n, e, s + 1),
{
    assert forall|i: int| 0 <= i < v.len() implies {
        &&& sources_sorted(pairs((#[trigger] v[i]).sources@))
        &&& forall|q: (u32, Seq<char>)| #[trigger] pairs(v[i].sources@).contains(q) <==> crosses_before(
            nets, p, vertical, cell_key(v[i]), q, n, e, s + 1)
    } by {
        assert forall|q: (u32, Seq<char>)| #[trigger] pairs(v[i].sources@).contains(q) <==> crosses_before(
            nets, p, vertical, cell_key(v[i]), q, n, e, s + 1) by {
            lemma_one_step(nets, p, vertical, cell_key(v[i]), q, n, e, s);
            assert(pairs(v0[i].sources@).contains(q) <==> crosses_before(nets, p, vertical, cell_key(v0[i]), q, n, e, s));
        }
    }
}

proof fn lemma_cells_kept(v0: Seq<Cell>, v: Seq<Cell>, cells: Seq<CongestedCell>, p: Placement)
    requires
        cells_collected(v0, cells, p, cells.len() as int),
        v.len() == v0.len(),
        forall|i: int| 0 <= i < v0.len() ==> {
            let (a, b) = (v0[i], #[trigger] v[i]);
            cell_key(b) == cell_key(a) && b.capacity == a.capacity && b.usage == a.usage
        },
    ensures
        cells_collected(v, cells, p, cells.len() as int),
{
    assert forall|key: (int, int)| #[trigger] last_at(cells, p, key, cells.len() as int) is Some implies has_key(v, key) by {
        let i = choose|i: int| 0 <= i < v0.len() && cell_key(#[trigger] v0[i]) == key;
        assert(cell_key(v[i]) == key);
    }
    assert forall|i: int, j: int| 0 <= i < j < v.len() implies key_less(cell_key(#[trigger] v[i]), cell_key(#[trigger] v[j])) by {
        assert(key_less(cell_key(v0[i]), cell_key(v0[j])));
    }
    assert forall|i: int| 0 <= i < v.len() implies last_at(cells, p, cell_key(#[trigger] v[i]), cells.len() as int) == Some(
        (v[i].capacity, v[i].usage)) by {
        assert(last_at(cells, p, cell_key(v0[i]), cells.len() as int) == Some((v0[i].capacity, v0[i].usage)));
    }
}

/// The names of a list of sources.
fn names_of(v: &Vec<(u32, String)>) -> (r: Vec<String>)
    ensures
        texts(r@) == pairs(v@).map_values(|q: (u32, Seq<char>)| q.1),
{
    let ghost want = pairs(v@).map_values(|q: (u32, Seq<char>)| q.1);
    let mut r: Vec<String> = Vec::new();
    let mut i: usize = 0;
    assert(texts(r@) =~= want.take(0));
    while i < v.len()
        invariant
            i <= v@.len() == want.len(),
            want == pairs(v@).map_values(|q: (u32, Seq<char>)| q.1),
            texts(r@) == want.take(i as int),
        decreases v@.len() - i,
    {
        assert(want[i as int] == v@[i as int].1@);
        push_text(&mut r, v[i].1.clone());
        i += 1;
        assert(want.take(i as int) =~= want.take(i - 1).push(want[i - 1]));
    }
    assert(want.take(i as int) =~= want);
    r
}

fn finish_markers(v: Vec<Cell>, Ghost(cells): Ghost<Seq<CongestedCell>>, nets: &[CrossingNet<'_>], vertical: bool, Ghost(p): Ghost<Placement>) -> (r: Vec<CongestionMarker>)
    requires
        cells_collected(v@, cells, p, cells.len() as int),
        sources_collected(v@, nets@, p, vertical, nets@.len() as int, 0, 0),
    ensures
        markers_of(r@, cells, nets@, p, vertical),
{
    let mut r: Vec<CongestionMarker> = Vec::new();
    let mut i: usize = 0;
    while i < v.len()
        invariant
            i <= v@.len(),
            r@.len() == i,
            sources_collected(v@, nets@, p, vertical, nets@.len() as int, 0, 0),
            forall|j: int| 0 <= j < i ==> {
                let (m, c) = (#[trigger] r@[j], v@[j]);
                &&& marker_key(m) == cell_key(c) && m.capacity == c.capacity && m.usage == c.usage
                &&& names_crossing(texts(m.sources@), nets@, p, vertical, cell_key(c))
            },
        decreases v@.len() - i,
    {
        let c = &v[i];
        let sources = names_of(&c.sources);
        proof {
            let s = pairs(c.sources@);
            assert(sources_sorted(s));
            assert forall|q: (u32, Seq<char>)| s.contains(q) <==> #[trigger] crosses(nets@, p, vertical, cell_key(*c), q) by {
                assert(pairs(c.sources@).contains(q) <==> crosses_before(nets@, p, vertical, cell_key(*c), q, nets@.len() as int, 0, 0));
            }
            assert(names_crossing(texts(sources@), nets@, p, vertical, cell_key(*c)));
        }
        r.push(CongestionMarker { x: c.x, y: c.y, capacity: c.capacity, usage: c.usage, sources });
        i += 1;
    }
    proof {
        reveal(markers_of);
        assert forall|key: (int, int)| #[trigger] last_at(cells, p, key, cells.len() as int) is Some implies exists|i: int|
            0 <= i < r@.len() && marker_key(#[trigger] r@[i]) == key by {
            let j = choose|j: int| 0 <= j < v@.len() && cell_key(#[trigger] v@[j]) == key;
            assert(marker_key(r@[j]) == key);
        }
        assert forall|a: int, b: int| 0 <= a < b < r@.len() implies key_less(marker_key(#[trigger] r@[a]), marker_key(#[trigger] r@[b])) by {
            assert(key_less(cell_key(v@[a]), cell_key(v@[b])));
        }
        assert forall|a: int| 0 <= a < r@.len() implies {
            &&& last_at(cells, p, marker_key(#[trigger] r@[a]), cells.len() as int) == Some((r@[a].capacity, r@[a].usage))
            &&& names_crossing(texts(r@[a].sources@), nets@, p, vertical, marker_key(r@[a]))
        } by {
            assert(last_at(cells, p, cell_key(v@[a]), cells.len() as int) == Some((v@[a].capacity, v@[a].usage)));
        }
    }
    r
}

/// The seed of the markers' shuffle.
pub const MARKER_SEED: u32 = 42;

/// Whether two lists of markers are those of the horizontal and the vertical cells, both shuffled by
/// one generator, the vertical after the horizontal.
#[verifier::opaque]
pub open spec fn markers_shuffled(
    r: (Seq<CongestionMarker>, Seq<CongestionMarker>), horizontal: Seq<CongestedCell>, vertical: Seq<CongestedCell>,
    nets: Seq<CrossingNet>, p: Placement,
) -> bool {
    exists|h: Seq<CongestionMarker>, v: Seq<CongestionMarker>, mid: MtState, end: MtState| {
        &&& markers_of(h, horizontal, nets, p, false)
        &&& markers_of(v, vertical, nets, p, true)
        &&& #[trigger] shuffled_by(h, r.0, mt_seeded(MARKER_SEED), mid)
        &&& #[trigger] shuffled_by(v, r.1, mid, end)
    }
}

/// Whether the markers' generator gives out: in the shuffle of the horizontal markers, or once that is done in the
/// shuffle of the vertical ones.
#[verifier::opaque]
pub open spec fn markers_give_out(horizontal: Seq<CongestedCell>, vertical: Seq<CongestedCell>, nets: Seq<CrossingNet>, p: Placement) -> bool {
    exists|h: Seq<CongestionMarker>, v: Seq<CongestionMarker>| {
        &&& #[trigger] markers_of(h, horizontal, nets, p, false)
        &&& #[trigger] markers_of(v, vertical, nets, p, true)
        &&& gives_out_within(h, mt_seeded(MARKER_SEED)) || exists|shuffled: Seq<CongestionMarker>, mid: MtState| #[trigger]
            shuffled_by(h, shuffled, mt_seeded(MARKER_SEED), mid) && gives_out_within(v, mid)
    }
}

proof fn lemma_markers_shuffled(
    h: Seq<CongestionMarker>, v: Seq<CongestionMarker>, mid: MtState, end: MtState,
    r: (Seq<CongestionMarker>, Seq<CongestionMarker>), horizontal: Seq<CongestedCell>, vertical: Seq<CongestedCell>,
    nets: Seq<CrossingNet>, p: Placement,
)
    requires
        markers_of(h, horizontal, nets, p, false),
        markers_of(v, vertical, nets, p, true),
        shuffled_by(h, r.0, mt_seeded(MARKER_SEED), mid),
        shuffled_by(v, r.1, mid, end),
    ensures
        markers_shuffled(r, horizontal, vertical, nets, p),
{
    reveal(markers_shuffled);
}

/// The markers of the horizontal and of the vertical cells, each list shuffled with one generator,
/// the vertical shuffle continuing the horizontal's. `None` only when the generator would not give a
/// number (see [`DRAW_LIMIT`]).
pub fn congestion_markers(
    horizontal: &[CongestedCell],
    vertical: &[CongestedCell],
    nets: &[CrossingNet<'_>],
    tile: i32,
    corner: (i32, i32),
) -> (r: Option<(Vec<CongestionMarker>, Vec<CongestionMarker>)>)
    requires
        horizontal@.len() <= 0x1_0000_0000,
        vertical@.len() <= 0x1_0000_0000,
        forall|a: int, b: int| 0 <= a < nets@.len() && 0 <= b < nets@[a].edges@.len() ==> (#[trigger] nets@[a].edges@[b])@.len() > 0,
    ensures
        match r {
            Some((h, v)) => markers_shuffled((h@, v@), horizontal@, vertical@, nets@, (Placement { tile, corner })),
            None => markers_give_out(horizontal@, vertical@, nets@, (Placement { tile, corner })),
        },
{
    let ghost p = Placement { tile, corner };
    let mut h = congestion_grid(horizontal, nets, false, tile, corner);
    let mut v = congestion_grid(vertical, nets, true, tile, corner);
    let ghost (h0, v0) = (h@, v@);
    proof {
        lemma_marker_count(h0, horizontal@, nets@, p, false);
        lemma_marker_count(v0, vertical@, nets@, p, true);
    }
    let mut g = Mt19937::new(MARKER_SEED);
    if !utl_shuffle(&mut h, &mut g) {
        proof {
            reveal(markers_give_out);
            assert(stopped_by(h0, h@, mt_seeded(MARKER_SEED), g@));
            assert(markers_of(h0, horizontal@, nets@, p, false) && markers_of(v0, vertical@, nets@, p, true));
        }
        return None;
    }
    let ghost mid = g@;
    if !utl_shuffle(&mut v, &mut g) {
        proof {
            reveal(markers_give_out);
            assert(shuffled_by(h0, h@, mt_seeded(MARKER_SEED), mid));
            assert(stopped_by(v0, v@, mid, g@));
            assert(markers_of(h0, horizontal@, nets@, p, false) && markers_of(v0, vertical@, nets@, p, true));
        }
        return None;
    }
    proof {
        lemma_markers_shuffled(h0, v0, mid, g@, (h@, v@), horizontal@, vertical@, nets@, p);
    }
    Some((h, v))
}

/// There are no more markers than cells.
proof fn lemma_marker_count(r: Seq<CongestionMarker>, cells: Seq<CongestedCell>, nets: Seq<CrossingNet>, p: Placement, vertical: bool)
    requires
        markers_of(r, cells, nets, p, vertical),
    ensures
        r.len() <= cells.len(),
{
    reveal(markers_of);
    let keys = r.map_values(|m: CongestionMarker| marker_key(m));
    let centres = cells.map_values(|c: CongestedCell| placed(p, (c.0, c.1)));
    assert forall|i: int, j: int| 0 <= i < j < keys.len() implies keys[i] != keys[j] by {
        assert(key_less(marker_key(r[i]), marker_key(r[j])));
    }
    assert(keys.no_duplicates());
    assert(keys.to_set().subset_of(centres.to_set())) by {
        assert forall|k: (int, int)| keys.to_set().contains(k) implies centres.to_set().contains(k) by {
            let i = choose|i: int| 0 <= i < keys.len() && keys[i] == k;
            assert(last_at(cells, p, marker_key(r[i]), cells.len() as int) is Some);
            lemma_last_at(cells, p, k, cells.len() as int);
            let j = choose|j: int| 0 <= j < cells.len() && placed(p, ((#[trigger] cells[j]).0, cells[j].1)) == k;
            assert(centres[j] == k);
        }
    }
    keys.unique_seq_to_set();
    vstd::seq_lib::seq_to_set_is_finite(centres);
    vstd::set_lib::lemma_len_subset(keys.to_set(), centres.to_set());
    centres.lemma_cardinality_of_set();
}

proof fn lemma_last_at(cells: Seq<CongestedCell>, p: Placement, key: (int, int), n: int)
    requires
        last_at(cells, p, key, n) is Some,
        n <= cells.len(),
    ensures
        exists|j: int| 0 <= j < n && placed(p, ((#[trigger] cells[j]).0, cells[j].1)) == key,
    decreases n,
{
    let c = cells[n - 1];
    if placed(p, (c.0, c.1)) != key {
        lemma_last_at(cells, p, key, n - 1);
    }
}

} // verus!
