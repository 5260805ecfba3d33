//! What stands in the way of wires: the block's own obstructions, the instances' and the nets'.

use crate::lists::{all_of, count_of, lemma_all_next, lemma_all_none, lemma_count_next, lemma_count_none};
use vstd::prelude::*;
use vstd::string::{StrSliceExecFns, StringExecFns};

use super::slabs::{intersection_rectangles, slabs};
use crate::capacity::{layer_at_level, Direction, RoutingLayer};
use crate::grids::fits;
use crate::text::{dec, push_nat, push_text, texts};
use crate::vecs::copy_vec;
use crate::Rect;

verus! {

/// A rectangle on a routing level; 0 for a cut.
#[derive(Debug, Clone, Copy, PartialEq, Eq, Structural)]
pub struct LevelRect {
    pub level: i32,
    pub rect: Rect,
}

/// Something in the way of wires on one routing level.
#[derive(Debug, Clone, Copy, PartialEq, Eq, Structural)]
pub struct Obstruction {
    pub rect: Rect,
    pub level: i32,
    pub is_macro: bool,
}

/// A box of an instance's pin, where it stands in the block.
#[derive(Debug)]
pub struct InstancePin {
    pub term: String,
    pub is_supply: bool,
    pub is_routing: bool,
    pub level: i32,
    pub rect: Rect,
}

/// An instance's boxes, where they stand in the block.
#[derive(Debug)]
pub struct InstanceShapes {
    pub name: String,
    pub is_block: bool,
    pub is_pad: bool,
    pub obstructions: Vec<LevelRect>,
    pub pins: Vec<InstancePin>,
}

/// A net's wire boxes: a supply net's special wires, another net's routed wire, vias as their boxes.
#[derive(Debug)]
pub struct NetShapes {
    pub name: String,
    pub has_wires: bool,
    pub shapes: Vec<LevelRect>,
}

/// The levels that are routed, the die, and whether to warn.
#[derive(Debug, Clone, Copy, PartialEq, Eq, Structural)]
pub struct RouteLimits {
    pub min: i32,
    pub max: i32,
    pub die: Rect,
    pub verbose: bool,
}

pub open spec fn in_range(lim: RouteLimits, level: int) -> bool {
    lim.min <= level <= lim.max
}

pub open spec fn inside(die: Rect, r: Rect) -> bool {
    die.x_min <= r.x_min && die.y_min <= r.y_min && r.x_max <= die.x_max && r.y_max <= die.y_max
}

fn is_inside(die: Rect, r: Rect) -> (b: bool)
    ensures
        b == inside(die, r),
{
    die.x_min <= r.x_min && die.y_min <= r.y_min && r.x_max <= die.x_max && r.y_max <= die.y_max
}

/// Lists of rectangles by level.
pub open spec fn rect_lists(v: Seq<Vec<Rect>>) -> Seq<Seq<Rect>> {
    v.map_values(|r: Vec<Rect>| r@)
}

// ---- a macro's levels ----

/// What a level takes over whole: the lowest routed level its upper neighbour's rectangles, the highest its
/// lower neighbour's.
pub open spec fn taken_over(lower: Seq<Rect>, upper: Seq<Rect>, l: int, min: int, max: int) -> Seq<Rect> {
    if l == min {
        upper
    } else if l == max {
        lower
    } else {
        Seq::empty()
    }
}

/// A level's rectangles with those that its neighbours add, the lower neighbour's already added to: from
/// `bottom` on, each level is blocked where both its neighbours are.
pub open spec fn extended(per: Seq<Seq<Rect>>, l: int, bottom: int, min: int, max: int) -> Seq<Rect>
    decreases l - bottom + 1,
{
    if l < bottom {
        per[l]
    } else {
        let lower = extended(per, l - 1, bottom, min, max);
        let upper = per[l + 1];
        per[l] + taken_over(lower, upper, l, min, max) + slabs(lower, upper)
    }
}

/// The levels that a macro's obstructions reach, widened by one to the lowest and the highest routed level.
pub open spec fn widened_span(span: (int, int), min: int, max: int) -> (int, int) {
    (if span.0 - 1 == min { min } else { span.0 }, if span.1 + 1 == max { max } else { span.1 })
}

/// A macro's rectangles by level, with those that neighbouring levels add.
pub open spec fn all_extended(per: Seq<Seq<Rect>>, span: Option<(int, int)>, min: int, max: int) -> Seq<Seq<Rect>> {
    match span {
        None => per,
        Some(s) => {
            let (bottom, top) = widened_span(s, min, max);
            Seq::new(per.len(), |l: int| if bottom <= l <= top { extended(per, l, bottom, min, max) } else { per[l] })
        },
    }
}

fn append_copy(to: &mut Vec<Rect>, from: &Vec<Rect>)
    ensures
        final(to)@ == old(to)@ + from@,
{
    let mut c = copy_vec(from);
    to.append(&mut c);
}

/// Adds to a macro's levels what their neighbours block: a level between two blocked ones is blocked where
/// both are, and the lowest and the highest routed level take over their only neighbour's rectangles. The
/// levels are visited from the bottom up, so a level sees its lower neighbour already added to.
pub fn extend_obstructions(per: &mut Vec<Vec<Rect>>, span: Option<(i32, i32)>, min: i32, max: i32)
    requires
        1 <= min,
        max < i32::MAX,
        old(per)@.len() == max + 2,
        match span {
            Some((bottom, top)) => min <= bottom <= top <= max,
            None => true,
        },
    ensures
        rect_lists(final(per)@) == all_extended(
            rect_lists(old(per)@), match span {
                Some((b, t)) => Some((b as int, t as int)),
                None => None,
            }, min as int, max as int),
{
    let ghost per0 = rect_lists(per@);
    let (bottom, top) = match span {
        None => {
            return;
        },
        Some(s) => s,
    };
    let bottom: i32 = if bottom - 1 == min { min } else { bottom };
    let top: i32 = if top < max && top + 1 == max { max } else { top };
    let ghost want = Seq::new(per0.len(), |l: int| if bottom <= l <= top { extended(per0, l, bottom as int, min as int, max as int) } else { per0[l] });
    let mut layer: i32 = bottom;
    while layer <= top
        invariant
            1 <= min,
            max < i32::MAX,
            min <= bottom <= top <= max,
            bottom <= layer <= top + 1,
            per@.len() == max + 2,
            per0.len() == max + 2,
            forall|l: int| 0 <= l < per@.len() ==> (#[trigger] per@[l])@ == (if bottom <= l < layer { extended(per0, l, bottom as int, min as int, max as int) } else { per0[l] }),
        decreases top - layer + 1,
    {
        let at: usize = layer as usize;
        let ghost before = per@;
        let ghost lower = per@[layer - 1]@;
        let ghost upper = per@[layer + 1]@;
        proof {
            assert(lower == extended(per0, layer - 1, bottom as int, min as int, max as int));
            assert(upper == per0[layer + 1]);
        }
        let mut own = copy_vec(&per[at]);
        if layer == min {
            append_copy(&mut own, &per[at + 1]);
        } else if layer == max {
            append_copy(&mut own, &per[at - 1]);
        }
        let mut more = intersection_rectangles(&per[at - 1], &per[at + 1]);
        own.append(&mut more);
        assert(own@ =~= extended(per0, layer as int, bottom as int, min as int, max as int));
        per.set(at, own);
        layer += 1;
    }
    assert(rect_lists(per@) =~= want);
}

/// The rectangles of the first `n` boxes that are on a level.
pub open spec fn on_level(v: Seq<LevelRect>, l: int, n: int) -> Seq<Rect>
    decreases n,
{
    if n <= 0 {
        Seq::empty()
    } else if v[n - 1].level == l {
        on_level(v, l, n - 1).push(v[n - 1].rect)
    } else {
        on_level(v, l, n - 1)
    }
}

/// The lowest and the highest routed level of the first `n` boxes.
pub open spec fn level_span(v: Seq<LevelRect>, lim: RouteLimits, n: int) -> Option<(int, int)>
    decreases n,
{
    if n <= 0 {
        None
    } else {
        let s = level_span(v, lim, n - 1);
        let l = v[n - 1].level as int;
        if !in_range(lim, l) {
            s
        } else {
            match s {
                None => Some((l, l)),
                Some((a, b)) => Some((if l < a { l } else { a }, if l > b { l } else { b })),
            }
        }
    }
}

/// A macro's routed boxes by level.
pub open spec fn by_level(v: Seq<LevelRect>, lim: RouteLimits) -> Seq<Seq<Rect>> {
    Seq::new((lim.max + 2) as nat, |l: int| if in_range(lim, l) { on_level(v, l, v.len() as int) } else { Seq::empty() })
}

/// A macro's obstructions by level, neighbouring levels added.
pub open spec fn macro_levels(v: Seq<LevelRect>, lim: RouteLimits) -> Seq<Seq<Rect>> {
    all_extended(by_level(v, lim), level_span(v, lim, v.len() as int), lim.min as int, lim.max as int)
}

/// A rectangle made wider across a level's direction.
pub open spec fn widened(r: Rect, direction: Option<Direction>, by: int) -> Rect {
    match direction {
        Some(Direction::Horizontal) => Rect { x_min: r.x_min, y_min: (r.y_min - by) as i32, x_max: r.x_max, y_max: (r.y_max + by) as i32 },
        Some(Direction::Vertical) => Rect { x_min: (r.x_min - by) as i32, y_min: r.y_min, x_max: (r.x_max + by) as i32, y_max: r.y_max },
        None => r,
    }
}

/// Whether a rectangle can be made wider within the machine's range.
pub open spec fn widening_fits(r: Rect, direction: Option<Direction>, by: int) -> bool {
    match direction {
        Some(Direction::Horizontal) => fits(r.y_min - by) && fits(r.y_max + by),
        Some(Direction::Vertical) => fits(r.x_min - by) && fits(r.x_max + by),
        None => true,
    }
}

/// What a level's direction is.
pub open spec fn direction_at(layers: Seq<RoutingLayer>, level: int) -> Option<Direction> {
    match layer_at_level(layers, level) {
        Some(l) => l.direction,
        None => None,
    }
}

/// How far macro obstructions are widened: the spacing of each level, and for all levels an extension.
#[derive(Debug)]
pub struct MacroHalo {
    /// By routing level.
    pub spacings: Vec<i32>,
    pub extension: i32,
}

pub open spec fn halo_at(h: MacroHalo, level: int) -> int {
    h.spacings@[level] + h.extension
}

/// The first `n` rectangles of a level made wider.
pub open spec fn widened_list(v: Seq<Rect>, direction: Option<Direction>, by: int) -> Seq<Rect> {
    v.map_values(|r: Rect| widened(r, direction, by))
}

/// A macro's widened rectangles by level.
pub open spec fn macro_rects(v: Seq<LevelRect>, lim: RouteLimits, h: MacroHalo, layers: Seq<RoutingLayer>) -> Seq<Seq<Rect>> {
    let m = macro_levels(v, lim);
    Seq::new(m.len(), |l: int| if in_range(lim, l) { widened_list(m[l], direction_at(layers, l), halo_at(h, l)) } else { Seq::empty() })
}

/// A level's macro rectangles as obstructions.
pub open spec fn as_macro(v: Seq<Rect>, level: int) -> Seq<Obstruction> {
    v.map_values(|r: Rect| Obstruction { rect: r, level: level as i32, is_macro: true })
}

/// A macro's obstructions on the levels below `end`, level by level.
pub open spec fn macro_stream(rects: Seq<Seq<Rect>>, lim: RouteLimits, end: int) -> Seq<Obstruction>
    decreases end - lim.min,
{
    if end <= lim.min {
        Seq::empty()
    } else {
        macro_stream(rects, lim, end - 1) + as_macro(rects[end - 1], end - 1)
    }
}

/// Whether a macro's rectangles can be widened within the machine's range.
pub open spec fn macro_fits(v: Seq<LevelRect>, lim: RouteLimits, h: MacroHalo, layers: Seq<RoutingLayer>) -> bool {
    forall|l: int, i: int| in_range(lim, l) && 0 <= i < macro_levels(v, lim)[l].len() ==> widening_fits(#[trigger] macro_levels(v, lim)[l][i], direction_at(layers, l), halo_at(h, l))
}

/// Whether the limits and the halo go together: levels count from 1, and each has a spacing.
pub open spec fn halo_fits(lim: RouteLimits, h: MacroHalo) -> bool {
    &&& 1 <= lim.min
    &&& -1 <= lim.max < i32::MAX - 1
    &&& lim.max < h.spacings@.len()
    &&& forall|l: int| 1 <= l <= lim.max ==> fits(#[trigger] h.spacings@[l] + h.extension)
}


/// The direction of a level.
pub fn direction_of(layers: &[RoutingLayer], level: i32) -> (d: Option<Direction>)
    ensures
        d == direction_at(layers@, level as int),
{
    match crate::capacity::find_level(layers, level) {
        Some(i) => layers[i].direction,
        None => None,
    }
}

fn widen(r: Rect, direction: Option<Direction>, by: i32) -> (w: Rect)
    requires
        widening_fits(r, direction, by as int),
    ensures
        w == widened(r, direction, by as int),
{
    match direction {
        Some(Direction::Horizontal) => Rect::new(r.x_min, r.y_min - by, r.x_max, r.y_max + by),
        Some(Direction::Vertical) => Rect::new(r.x_min - by, r.y_min, r.x_max + by, r.y_max),
        None => r,
    }
}

/// A macro's routed boxes by level, with the levels that they reach.
fn sort_by_level(v: &Vec<LevelRect>, lim: RouteLimits) -> (r: (Vec<Vec<Rect>>, Option<(i32, i32)>))
    requires
        1 <= lim.min,
        -1 <= lim.max < i32::MAX - 1,
    ensures
        rect_lists(r.0@) == by_level(v@, lim),
        match r.1 {
            Some((a, b)) => level_span(v@, lim, v@.len() as int) == Some((a as int, b as int)) && lim.min <= a <= b <= lim.max,
            None => level_span(v@, lim, v@.len() as int) is None,
        },
{
    let total: usize = (lim.max + 2) as usize;
    let mut per: Vec<Vec<Rect>> = Vec::new();
    while per.len() < total
        invariant
            total == lim.max + 2,
            per@.len() <= total,
            forall|l: int| 0 <= l < per@.len() ==> (#[trigger] per@[l])@ == Seq::<Rect>::empty(),
        decreases total - per@.len(),
    {
        per.push(Vec::new());
    }
    let mut span: Option<(i32, i32)> = None;
    let mut i: usize = 0;
    while i < v.len()
        invariant
            1 <= lim.min,
            lim.max < i32::MAX - 1,
            i <= v@.len(),
            per@.len() == lim.max + 2,
            forall|l: int| 0 <= l < per@.len() ==> (#[trigger] per@[l])@ == (if in_range(lim, l) { on_level(v@, l, i as int) } else { Seq::empty() }),
            match span {
                Some((a, b)) => level_span(v@, lim, i as int) == Some((a as int, b as int)) && lim.min <= a <= b <= lim.max,
                None => level_span(v@, lim, i as int) is None,
            },
        decreases v@.len() - i,
    {
        let o = v[i];
        if lim.min <= o.level && o.level <= lim.max {
            let at: usize = o.level as usize;
            let ghost before = per@;
            per[at].push(o.rect);
            assert forall|l: int| 0 <= l < per@.len() implies (#[trigger] per@[l])@ == (if in_range(lim, l) { on_level(v@, l, i + 1) } else { Seq::empty() }) by {
                assert(before[l]@ == (if in_range(lim, l) { on_level(v@, l, i as int) } else { Seq::empty() }));
            }
            span = match span {
                None => Some((o.level, o.level)),
                Some((a, b)) => Some((if o.level < a { o.level } else { a }, if o.level > b { o.level } else { b })),
            };
        }
        i += 1;
    }
    assert(rect_lists(per@) =~= by_level(v@, lim));
    (per, span)
}

/// A macro's obstructions: its boxes by level, neighbouring levels added, each widened across its level's
/// direction by the level's halo.
pub fn macro_obstructions(v: &Vec<LevelRect>, lim: RouteLimits, halo: &MacroHalo, layers: &[RoutingLayer]) -> (out: Vec<Vec<Rect>>)
    requires
        halo_fits(lim, *halo),
        macro_fits(v@, lim, *halo, layers@),
    ensures
        rect_lists(out@) == macro_rects(v@, lim, *halo, layers@),
{
    let (mut per, span) = sort_by_level(v, lim);
    assert(per@.len() == rect_lists(per@).len());
    extend_obstructions(&mut per, span, lim.min, lim.max);
    let ghost m = macro_levels(v@, lim);
    assert(rect_lists(per@) == m);
    let mut out: Vec<Vec<Rect>> = Vec::new();
    let mut l: i32 = 0;
    while l < lim.max + 2
        invariant
            halo_fits(lim, *halo),
            macro_fits(v@, lim, *halo, layers@),
            m == macro_levels(v@, lim),
            rect_lists(per@) == m,
            m.len() == lim.max + 2,
            0 <= l <= lim.max + 2,
            out@.len() == l,
            forall|k: int| 0 <= k < l ==> (#[trigger] out@[k])@ == (if in_range(lim, k) { widened_list(m[k], direction_at(layers@, k), halo_at(*halo, k)) } else { Seq::empty() }),
        decreases lim.max + 2 - l,
    {
        let mut list: Vec<Rect> = Vec::new();
        if lim.min <= l && l <= lim.max {
            let direction = direction_of(layers, l);
            assert(fits(halo.spacings@[l as int] + halo.extension));
            let by: i32 = halo.spacings[l as usize] + halo.extension;
            let mut i: usize = 0;
            assert(rect_lists(per@)[l as int] == per@[l as int]@);
            while i < per[l as usize].len()
                invariant
                    macro_fits(v@, lim, *halo, layers@),
                    m == macro_levels(v@, lim),
                    rect_lists(per@) == m,
                    per@.len() == lim.max + 2,
                    in_range(lim, l as int),
                    1 <= lim.min,
                    per@[l as int]@ == m[l as int],
                    i <= m[l as int].len(),
                    direction == direction_at(layers@, l as int),
                    by == halo_at(*halo, l as int),
                    list@ == widened_list(m[l as int].take(i as int), direction, by as int),
                decreases m[l as int].len() - i,
            {
                let r = per[l as usize][i];
                assert(widening_fits(macro_levels(v@, lim)[l as int][i as int], direction, by as int));
                list.push(widen(r, direction, by));
                i += 1;
                assert(list@ =~= widened_list(m[l as int].take(i as int), direction, by as int));
            }
            assert(m[l as int].take(i as int) =~= m[l as int]);
        }
        out.push(list);
        l += 1;
    }
    assert(rect_lists(out@) =~= macro_rects(v@, lim, *halo, layers@));
    out
}


// ---- everything in the way ----

/// What was found in the way of wires.
#[derive(Debug)]
pub struct Found {
    /// The obstructions in the order in which they are applied.
    pub stream: Vec<Obstruction>,
    pub log: Vec<String>,
    /// How many pin boxes that are no supply's stick out of the die.
    pub pins_out_of_die: usize,
    /// The macros' obstructions by level.
    pub macro_rects: Vec<Vec<Rect>>,
    pub has_macros_or_pads: bool,
}

/// What was found, as sequences.
#[verifier::ext_equal]
pub struct FoundView {
    pub stream: Seq<Obstruction>,
    pub log: Seq<Seq<char>>,
    pub pins_out_of_die: int,
    pub macro_rects: Seq<Seq<Rect>>,
    pub has_macros_or_pads: bool,
}

impl Found {
    pub open spec fn view(&self) -> FoundView {
        FoundView {
            stream: self.stream@,
            log: texts(self.log@),
            pins_out_of_die: self.pins_out_of_die as int,
            macro_rects: rect_lists(self.macro_rects@),
            has_macros_or_pads: self.has_macros_or_pads,
        }
    }

    /// Whether no more pins were counted than messages were logged, and every level has a list.
    pub open spec fn wf(&self, lim: RouteLimits) -> bool {
        self.pins_out_of_die <= self.log@.len() && self.macro_rects@.len() == lim.max + 2
    }

    /// Nothing found yet.
    pub fn new(lim: RouteLimits) -> (f: Found)
        requires
            -1 <= lim.max < i32::MAX - 1,
        ensures
            f.wf(lim),
            f@ == nothing_found(lim),
    {
        let total: usize = (lim.max + 2) as usize;
        let mut macro_rects: Vec<Vec<Rect>> = Vec::new();
        while macro_rects.len() < total
            invariant
                total == lim.max + 2,
                macro_rects@.len() <= total,
                forall|l: int| 0 <= l < macro_rects@.len() ==> (#[trigger] macro_rects@[l])@ == Seq::<Rect>::empty(),
            decreases total - macro_rects@.len(),
        {
            macro_rects.push(Vec::new());
        }
        let f = Found { stream: Vec::new(), log: Vec::new(), pins_out_of_die: 0, macro_rects, has_macros_or_pads: false };
        assert(f@ =~= nothing_found(lim)) by {
            assert(rect_lists(f.macro_rects@) =~= nothing_found(lim).macro_rects);
        }
        f
    }
}

pub open spec fn nothing_found(lim: RouteLimits) -> FoundView {
    FoundView { stream: Seq::empty(), log: Seq::empty(), pins_out_of_die: 0, macro_rects: Seq::new((lim.max + 2) as nat, |l: int| Seq::empty()), has_macros_or_pads: false }
}

/// Whether a box on a routed level is warned about: it sticks out of the die.
pub open spec fn is_warned(lim: RouteLimits, s: LevelRect) -> bool {
    in_range(lim, s.level as int) && !inside(lim.die, s.rect) && lim.verbose
}

/// With the first `n` boxes that are on routed levels; each that sticks out of the die is warned about with
/// a message where warnings are wanted.
pub open spec fn with_shapes(v: FoundView, shapes: Seq<LevelRect>, lim: RouteLimits, message: Seq<char>, n: int) -> FoundView
    decreases n,
{
    if n <= 0 {
        v
    } else {
        let w = with_shapes(v, shapes, lim, message, n - 1);
        let s = shapes[n - 1];
        if in_range(lim, s.level as int) {
            FoundView {
                stream: w.stream.push(Obstruction { rect: s.rect, level: s.level, is_macro: false }),
                log: if is_warned(lim, s) { w.log.push(message) } else { w.log },
                ..w
            }
        } else {
            w
        }
    }
}

fn add_shapes(f: &mut Found, shapes: &Vec<LevelRect>, lim: RouteLimits, message: &str)
    requires
        old(f).wf(lim),
    ensures
        final(f).wf(lim),
        final(f)@ == with_shapes(old(f)@, shapes@, lim, message@, shapes@.len() as int),
{
    let ghost v = f@;
    let mut i: usize = 0;
    while i < shapes.len()
        invariant
            i <= shapes@.len(),
            f.wf(lim),
            f@ == with_shapes(v, shapes@, lim, message@, i as int),
        decreases shapes@.len() - i,
    {
        let s = shapes[i];
        if lim.min <= s.level && s.level <= lim.max {
            if !is_inside(lim.die, s.rect) && lim.verbose {
                push_text(&mut f.log, String::from_str(message));
            }
            f.stream.push(Obstruction { rect: s.rect, level: s.level, is_macro: false });
        }
        i += 1;
        assert(f@ =~= with_shapes(v, shapes@, lim, message@, i as int));
    }
}

/// What is said of a pin box outside the die.
pub open spec fn pin_text(term: Seq<char>, inst: Seq<char>) -> Seq<char> {
    "[WARNING GRT-0039] Found pin "@ + term + " outside die area in instance "@ + inst + "."@
}

/// With the first `n` of an instance's pin boxes that are on routed levels; each that sticks out of the die
/// and is no supply's is counted and warned about.
pub open spec fn with_pins(v: FoundView, inst: InstanceShapes, lim: RouteLimits, n: int) -> FoundView
    decreases n,
{
    if n <= 0 {
        v
    } else {
        let w = with_pins(v, inst, lim, n - 1);
        let p = inst.pins@[n - 1];
        if p.is_routing && in_range(lim, p.level as int) {
            let out = !inside(lim.die, p.rect) && !p.is_supply;
            FoundView {
                stream: w.stream.push(Obstruction { rect: p.rect, level: p.level, is_macro: false }),
                log: if out { w.log.push(pin_text(p.term@, inst.name@)) } else { w.log },
                pins_out_of_die: if out { w.pins_out_of_die + 1 } else { w.pins_out_of_die },
                ..w
            }
        } else {
            w
        }
    }
}

fn add_pins(f: &mut Found, inst: &InstanceShapes, lim: RouteLimits)
    requires
        old(f).wf(lim),
    ensures
        final(f).wf(lim),
        final(f)@ == with_pins(old(f)@, *inst, lim, inst.pins@.len() as int),
{
    let ghost v = f@;
    let mut i: usize = 0;
    while i < inst.pins.len()
        invariant
            i <= inst.pins@.len(),
            f.wf(lim),
            f@ == with_pins(v, *inst, lim, i as int),
        decreases inst.pins@.len() - i,
    {
        let p = &inst.pins[i];
        if p.is_routing && lim.min <= p.level && p.level <= lim.max {
            if !is_inside(lim.die, p.rect) && !p.is_supply {
                let mut t = String::from_str("[WARNING GRT-0039] Found pin ");
                t.append(p.term.as_str());
                t.append(" outside die area in instance ");
                t.append(inst.name.as_str());
                t.append(".");
                push_text(&mut f.log, t);
                assert(f.pins_out_of_die < f.log.len());
                f.pins_out_of_die = f.pins_out_of_die + 1;
            }
            f.stream.push(Obstruction { rect: p.rect, level: p.level, is_macro: false });
        }
        i += 1;
        assert(f@ =~= with_pins(v, *inst, lim, i as int));
    }
}

/// With a macro's obstructions, level by level.
pub open spec fn with_macro(v: FoundView, rects: Seq<Seq<Rect>>, lim: RouteLimits) -> FoundView {
    FoundView {
        stream: v.stream + macro_stream(rects, lim, lim.max + 1),
        macro_rects: Seq::new(v.macro_rects.len(), |l: int| v.macro_rects[l] + rects[l]),
        ..v
    }
}

fn add_macro(f: &mut Found, rects: &Vec<Vec<Rect>>, lim: RouteLimits)
    requires
        old(f).wf(lim),
        1 <= lim.min,
        -1 <= lim.max < i32::MAX - 1,
        rects@.len() == lim.max + 2,
        forall|l: int| 0 <= l < rects@.len() && !in_range(lim, l) ==> (#[trigger] rects@[l])@ == Seq::<Rect>::empty(),
    ensures
        final(f).wf(lim),
        final(f)@ == with_macro(old(f)@, rect_lists(rects@), lim),
{
    let ghost v = f@;
    let ghost lists = rect_lists(rects@);
    let mut l: i32 = lim.min;
    while l <= lim.max
        invariant
            1 <= lim.min <= l,
            l <= lim.max + 1 || l == lim.min,
            -1 <= lim.max < i32::MAX - 1,
            f.wf(lim),
            f.macro_rects@.len() == v.macro_rects.len(),
            lists == rect_lists(rects@),
            rects@.len() == lim.max + 2,
            f.log@ == old(f).log@,
            f.pins_out_of_die == old(f).pins_out_of_die,
            f.has_macros_or_pads == old(f).has_macros_or_pads,
            v == old(f)@,
            f.stream@ == v.stream + macro_stream(lists, lim, l as int),
            forall|k: int| 0 <= k < f.macro_rects@.len() ==> (#[trigger] f.macro_rects@[k])@ == (if lim.min <= k < l { v.macro_rects[k] + lists[k] } else { v.macro_rects[k] }),
        decreases lim.max - l + 1,
    {
        let at: usize = l as usize;
        let ghost s0 = f.stream@;
        let ghost m0 = f.macro_rects@;
        assert(lists[l as int] == rects@[l as int]@);
        let ghost own = f.macro_rects@[l as int]@;
        let mut i: usize = 0;
        assert(as_macro(lists[l as int].take(0), l as int) =~= Seq::empty());
        assert(own + lists[l as int].take(0) =~= own);
        while i < rects[at].len()
            invariant
                at == l,
                1 <= l <= lim.max,
                lim.max < i32::MAX - 1,
                rects@.len() == lim.max + 2,
                lists == rect_lists(rects@),
                lists[l as int] == rects@[l as int]@,
                i <= rects@[l as int]@.len(),
                f.macro_rects@.len() == m0.len() == lim.max + 2,
                f.log@ == old(f).log@,
                f.pins_out_of_die == old(f).pins_out_of_die,
                f.has_macros_or_pads == old(f).has_macros_or_pads,
                f.wf(lim),
                f.stream@ == s0 + as_macro(lists[l as int].take(i as int), l as int),
                f.macro_rects@[l as int]@ == own + lists[l as int].take(i as int),
                forall|k: int| 0 <= k < m0.len() && k != l ==> (#[trigger] f.macro_rects@[k]) == m0[k],
            decreases rects@[l as int]@.len() - i,
        {
            let r = rects[at][i];
            f.macro_rects[at].push(r);
            f.stream.push(Obstruction { rect: r, level: l, is_macro: true });
            i += 1;
            proof {
                assert(lists[l as int].take(i as int) =~= lists[l as int].take(i - 1).push(r));
                assert(f.stream@ =~= s0 + as_macro(lists[l as int].take(i as int), l as int));
                assert(f.macro_rects@[l as int]@ =~= own + lists[l as int].take(i as int));
            }
        }
        proof {
            assert(lists[l as int].take(i as int) =~= lists[l as int]);
            assert(f.stream@ =~= v.stream + macro_stream(lists, lim, l + 1));
            assert forall|k: int| 0 <= k < f.macro_rects@.len() implies (#[trigger] f.macro_rects@[k])@ == (if lim.min <= k < l + 1 { v.macro_rects[k] + lists[k] } else { v.macro_rects[k] }) by {
                assert(m0[k]@ == (if lim.min <= k < l { v.macro_rects[k] + lists[k] } else { v.macro_rects[k] }));
            }
        }
        l += 1;
    }
    proof {
        let want = with_macro(v, lists, lim);
        assert forall|k: int| 0 <= k < want.macro_rects.len() implies rect_lists(f.macro_rects@)[k] == want.macro_rects[k] by {
            assert(f.macro_rects@[k]@ == (if lim.min <= k < l { v.macro_rects[k] + lists[k] } else { v.macro_rects[k] }));
            if !in_range(lim, k) {
                assert(rects@[k]@ == Seq::<Rect>::empty());
                assert(lists[k] =~= Seq::<Rect>::empty());
                assert(v.macro_rects[k] + lists[k] =~= v.macro_rects[k]);
            }
        }
        if lim.max < lim.min {
            assert(macro_stream(lists, lim, lim.max + 1) =~= Seq::empty());
        }
        assert(rect_lists(f.macro_rects@) =~= want.macro_rects);
        assert(f@ =~= want);
    }
}

/// What is said of a box of an instance outside the die.
pub open spec fn blockage_text(inst: Seq<char>) -> Seq<char> {
    "[WARNING GRT-0038] Found blockage outside die area in instance "@ + inst + "."@
}

/// With an instance's boxes: a macro's obstructions as a macro's, another's as they are, then its pins.
pub open spec fn with_instance(v: FoundView, inst: InstanceShapes, lim: RouteLimits, h: MacroHalo, layers: Seq<RoutingLayer>) -> FoundView {
    let v = FoundView { has_macros_or_pads: v.has_macros_or_pads || inst.is_block || inst.is_pad, ..v };
    let w = if inst.is_block {
        with_macro(v, macro_rects(inst.obstructions@, lim, h, layers), lim)
    } else {
        with_shapes(v, inst.obstructions@, lim, blockage_text(inst.name@), inst.obstructions@.len() as int)
    };
    with_pins(w, inst, lim, inst.pins@.len() as int)
}

/// With the first `n` instances.
pub open spec fn with_instances(v: FoundView, insts: Seq<InstanceShapes>, lim: RouteLimits, h: MacroHalo, layers: Seq<RoutingLayer>, n: int) -> FoundView
    decreases n,
{
    if n <= 0 { v } else { with_instance(with_instances(v, insts, lim, h, layers, n - 1), insts[n - 1], lim, h, layers) }
}

fn add_instance(f: &mut Found, inst: &InstanceShapes, lim: RouteLimits, halo: &MacroHalo, layers: &[RoutingLayer])
    requires
        old(f).wf(lim),
        halo_fits(lim, *halo),
        inst.is_block ==> macro_fits(inst.obstructions@, lim, *halo, layers@),
    ensures
        final(f).wf(lim),
        final(f)@ == with_instance(old(f)@, *inst, lim, *halo, layers@),
{
    let ghost v = f@;
    f.has_macros_or_pads = f.has_macros_or_pads || inst.is_block || inst.is_pad;
    assert(f@ =~= FoundView { has_macros_or_pads: v.has_macros_or_pads || inst.is_block || inst.is_pad, ..v });
    if inst.is_block {
        let rects = macro_obstructions(&inst.obstructions, lim, halo, layers);
        assert(rects@.len() == rect_lists(rects@).len());
        assert forall|l: int| 0 <= l < rects@.len() && !in_range(lim, l) implies (#[trigger] rects@[l])@ == Seq::<Rect>::empty() by {
            assert(rect_lists(rects@)[l] == rects@[l]@);
            assert(macro_rects(inst.obstructions@, lim, *halo, layers@)[l] =~= Seq::<Rect>::empty());
        }
        add_macro(f, &rects, lim);
    } else {
        let mut t = String::from_str("[WARNING GRT-0038] Found blockage outside die area in instance ");
        t.append(inst.name.as_str());
        t.append(".");
        add_shapes(f, &inst.obstructions, lim, t.as_str());
    }
    add_pins(f, inst, lim);
}

/// What is said of a net's box outside the die.
pub open spec fn wires_text(net: Seq<char>) -> Seq<char> {
    "[WARNING GRT-0041] Net "@ + net + " has wires/vias outside die area."@
}

/// With the boxes of the first `n` nets that have wires.
pub open spec fn with_nets(v: FoundView, nets: Seq<NetShapes>, lim: RouteLimits, n: int) -> FoundView
    decreases n,
{
    if n <= 0 {
        v
    } else {
        let w = with_nets(v, nets, lim, n - 1);
        let net = nets[n - 1];
        if net.has_wires { with_shapes(w, net.shapes@, lim, wires_text(net.name@), net.shapes@.len() as int) } else { w }
    }
}

/// A design whose obstructions cannot be taken.
#[derive(Debug, Clone, Copy, PartialEq, Eq, Structural)]
pub enum ObstructionError {
    PinsOutside { pins: usize },
    NoNets,
}

pub open spec fn obstruction_error_text(e: ObstructionError) -> Seq<char> {
    match e {
        ObstructionError::PinsOutside { pins } => "GRT-0028: Found "@ + dec(pins as int) + " pins outside die area."@,
        ObstructionError::NoNets => "GRT-0094: Design with no nets."@,
    }
}

impl ObstructionError {
    /// What is said of it.
    pub fn message(&self) -> (s: String)
        ensures
            s@ == obstruction_error_text(*self),
    {
        match self {
            ObstructionError::PinsOutside { pins } => {
                let mut s = String::from_str("GRT-0028: Found ");
                push_nat(&mut s, *pins as u64);
                s.append(" pins outside die area.");
                s
            },
            ObstructionError::NoNets => String::from_str("GRT-0094: Design with no nets."),
        }
    }
}

/// What is said of a box of the block outside the die.
pub open spec fn block_text() -> Seq<char> {
    "[WARNING GRT-0037] Found blockage outside die area."@
}

/// With the block's own obstructions and every instance's.
pub open spec fn with_block_and_instances(shapes: Seq<LevelRect>, insts: Seq<InstanceShapes>, lim: RouteLimits, h: MacroHalo, layers: Seq<RoutingLayer>) -> FoundView {
    with_instances(with_shapes(nothing_found(lim), shapes, lim, block_text(), shapes.len() as int), insts, lim, h, layers, insts.len() as int)
}

/// Finds everything in the way of wires: the block's own obstructions, the instances' boxes and the wires that
/// nets already have. Refused where warnings are wanted and pins stick out of the die, and where there is no
/// net.
pub fn find_obstructions(shapes: &Vec<LevelRect>, insts: &Vec<InstanceShapes>, nets: &Vec<NetShapes>, lim: RouteLimits, halo: &MacroHalo, layers: &[RoutingLayer]) -> (r: (Found, Result<(), ObstructionError>))
    requires
        halo_fits(lim, *halo),
        forall|i: int| 0 <= i < insts@.len() && (#[trigger] insts@[i]).is_block ==> macro_fits(insts@[i].obstructions@, lim, *halo, layers@),
    ensures
        r.0.wf(lim),
        ({
            let v = with_block_and_instances(shapes@, insts@, lim, *halo, layers@);
            match r.1 {
                Ok(()) => {
                    &&& !(v.pins_out_of_die > 0 && lim.verbose)
                    &&& nets@.len() > 0
                    &&& r.0@ == with_nets(v, nets@, lim, nets@.len() as int)
                },
                Err(ObstructionError::PinsOutside { pins }) => v.pins_out_of_die > 0 && lim.verbose && pins == v.pins_out_of_die && r.0@ == v,
                Err(ObstructionError::NoNets) => !(v.pins_out_of_die > 0 && lim.verbose) && nets@.len() == 0 && r.0@ == v,
            }
        }),
{
    let mut f = Found::new(lim);
    add_shapes(&mut f, shapes, lim, "[WARNING GRT-0037] Found blockage outside die area.");
    let ghost v0 = f@;
    let mut i: usize = 0;
    while i < insts.len()
        invariant
            i <= insts@.len(),
            f.wf(lim),
            halo_fits(lim, *halo),
            forall|i: int| 0 <= i < insts@.len() && (#[trigger] insts@[i]).is_block ==> macro_fits(insts@[i].obstructions@, lim, *halo, layers@),
            f@ == with_instances(v0, insts@, lim, *halo, layers@, i as int),
        decreases insts@.len() - i,
    {
        add_instance(&mut f, &insts[i], lim, halo, layers);
        i += 1;
    }
    if f.pins_out_of_die > 0 && lim.verbose {
        let pins: usize = f.pins_out_of_die;
        return (f, Err(ObstructionError::PinsOutside { pins }));
    }
    if nets.len() == 0 {
        return (f, Err(ObstructionError::NoNets));
    }
    let ghost v1 = f@;
    let mut k: usize = 0;
    while k < nets.len()
        invariant
            k <= nets@.len(),
            f.wf(lim),
            f@ == with_nets(v1, nets@, lim, k as int),
        decreases nets@.len() - k,
    {
        let net = &nets[k];
        if net.has_wires {
            let mut t = String::from_str("[WARNING GRT-0041] Net ");
            t.append(net.name.as_str());
            t.append(" has wires/vias outside die area.");
            add_shapes(&mut f, &net.shapes, lim, t.as_str());
        }
        k += 1;
    }
    (f, Ok(()))
}

/// The rectangles of a level are those listed with it, in order.
pub proof fn the_shapes_of_a_level_are_those_listed_with_it(v: Seq<LevelRect>, l: int, n: int)
    requires
        0 <= n,
    ensures
        on_level(v, l, n) == all_of(
            n,
            |k: int| if v[k].level == l { seq![v[k].rect] } else { Seq::empty() },
        ),
    decreases n,
{
    let f = |k: int| if v[k].level == l { seq![v[k].rect] } else { Seq::empty() };
    if n > 0 {
        the_shapes_of_a_level_are_those_listed_with_it(v, l, n - 1);
        lemma_all_next(n - 1, f);
    } else {
        lemma_all_none(f);
    }
    assert(on_level(v, l, n) =~= all_of(n, f));
}

/// The shapes that obstruct are those on the levels routed, in order, after what obstructed before; nothing
/// else is taken.
pub proof fn every_shape_on_a_routed_level_obstructs(v: FoundView, shapes: Seq<LevelRect>, lim: RouteLimits, message: Seq<char>, n: int)
    requires
        0 <= n,
    ensures
        with_shapes(v, shapes, lim, message, n).stream == v.stream + all_of(
            n,
            |k: int| if in_range(lim, shapes[k].level as int) { seq![Obstruction { rect: shapes[k].rect, level: shapes[k].level, is_macro: false }] } else { Seq::empty() },
        ),
        with_shapes(v, shapes, lim, message, n).log == v.log + all_of(
            n,
            |k: int| if in_range(lim, shapes[k].level as int) && is_warned(lim, shapes[k]) { seq![message] } else { Seq::empty() },
        ),
        with_shapes(v, shapes, lim, message, n).pins_out_of_die == v.pins_out_of_die,
    decreases n,
{
    let f = |k: int| if in_range(lim, shapes[k].level as int) { seq![Obstruction { rect: shapes[k].rect, level: shapes[k].level, is_macro: false }] } else { Seq::empty() };
    let g = |k: int| if in_range(lim, shapes[k].level as int) && is_warned(lim, shapes[k]) { seq![message] } else { Seq::empty() };
    let w = with_shapes(v, shapes, lim, message, n);
    if n > 0 {
        every_shape_on_a_routed_level_obstructs(v, shapes, lim, message, n - 1);
        lemma_all_next(n - 1, f);
        lemma_all_next(n - 1, g);
    } else {
        lemma_all_none(f);
        lemma_all_none(g);
    }
    assert(w.stream =~= v.stream + all_of(n, f));
    assert(w.log =~= v.log + all_of(n, g));
}

/// The pins of an instance that obstruct are its routing shapes on the levels routed, in order; those that
/// lie outside the die and are no supply are warned of and counted.
pub proof fn every_pin_on_a_routed_level_obstructs(v: FoundView, inst: InstanceShapes, lim: RouteLimits, n: int)
    requires
        0 <= n,
    ensures
        with_pins(v, inst, lim, n).stream == v.stream + all_of(
            n,
            |k: int| if inst.pins@[k].is_routing && in_range(lim, inst.pins@[k].level as int) { seq![Obstruction { rect: inst.pins@[k].rect, level: inst.pins@[k].level, is_macro: false }] } else { Seq::empty() },
        ),
        with_pins(v, inst, lim, n).pins_out_of_die == v.pins_out_of_die + count_of(
            n,
            |k: int| inst.pins@[k].is_routing && in_range(lim, inst.pins@[k].level as int) && !inside(lim.die, inst.pins@[k].rect) && !inst.pins@[k].is_supply,
        ),
    decreases n,
{
    let f = |k: int| if inst.pins@[k].is_routing && in_range(lim, inst.pins@[k].level as int) { seq![Obstruction { rect: inst.pins@[k].rect, level: inst.pins@[k].level, is_macro: false }] } else { Seq::empty() };
    let g = |k: int| inst.pins@[k].is_routing && in_range(lim, inst.pins@[k].level as int) && !inside(lim.die, inst.pins@[k].rect) && !inst.pins@[k].is_supply;
    let w = with_pins(v, inst, lim, n);
    if n > 0 {
        every_pin_on_a_routed_level_obstructs(v, inst, lim, n - 1);
        lemma_all_next(n - 1, f);
        lemma_count_next(n - 1, g);
    } else {
        lemma_all_none(f);
        lemma_count_none(g);
    }
    assert(w.stream =~= v.stream + all_of(n, f));
}

/// A macro obstructs, level by level from the lowest routed, by its rectangles there.
pub proof fn a_macro_obstructs_level_by_level(rects: Seq<Seq<Rect>>, lim: RouteLimits, n: int)
    requires
        0 <= n,
    ensures
        macro_stream(rects, lim, lim.min + n) == all_of(
            n,
            |k: int| as_macro(rects[lim.min + k], lim.min + k),
        ),
    decreases n,
{
    let f = |k: int| as_macro(rects[lim.min + k], lim.min + k);
    if n > 0 {
        a_macro_obstructs_level_by_level(rects, lim, n - 1);
        lemma_all_next(n - 1, f);
    } else {
        lemma_all_none(f);
    }
    assert(macro_stream(rects, lim, lim.min + n) =~= all_of(n, f));
}

/// The levels that shapes span are the least and the greatest of those routed on which one lies.
pub proof fn the_levels_spanned_are_those_of_shapes(v: Seq<LevelRect>, lim: RouteLimits, n: int)
    requires
        0 <= n <= v.len(),
    ensures
        match level_span(v, lim, n) {
            Some((a, b)) => {
                &&& forall|i: int| 0 <= i < n && in_range(lim, (#[trigger] v[i]).level as int) ==> a <= v[i].level <= b
                &&& exists|i: int| 0 <= i < n && in_range(lim, (#[trigger] v[i]).level as int) && v[i].level == a
                &&& exists|i: int| 0 <= i < n && in_range(lim, (#[trigger] v[i]).level as int) && v[i].level == b
            },
            None => forall|i: int| 0 <= i < n ==> !in_range(lim, (#[trigger] v[i]).level as int),
        },
    decreases n,
{
    if n > 0 {
        the_levels_spanned_are_those_of_shapes(v, lim, n - 1);
        if let Some((a, b)) = level_span(v, lim, n - 1) {
            let i = choose|i: int| 0 <= i < n - 1 && in_range(lim, (#[trigger] v[i]).level as int) && v[i].level == a;
            let j = choose|i: int| 0 <= i < n - 1 && in_range(lim, (#[trigger] v[i]).level as int) && v[i].level == b;
            assert(in_range(lim, v[i].level as int) && in_range(lim, v[j].level as int));
        }
        if in_range(lim, v[n - 1].level as int) {
            let (a, b) = level_span(v, lim, n)->0;
            assert(a == v[n - 1].level || level_span(v, lim, n - 1) is Some);
        }
    }
}

} // verus!
