//! A step of a job out of its fields: which fields each step asks for, in which order they are missed, and what
//! stands where one is not given.
//!
//! What a number is in single precision and in database units is the caller's to say.

use crate::lists::{all_of, lemma_all_next, lemma_all_none};
use vstd::prelude::*;
use vstd::string::StringExecFns;

use crate::callbacks::same_text;
use crate::cli::Fail;
use crate::job::{routing_level, CallOptions, JobStep, RegionAdjustment};
use crate::json::{field_in, flag_in, held_in, is_set, list_in, list_of, models, text_in, text_of, whole_in, whole_of, Json, JsonKind, JsonModel, KindModel};
use crate::Rect;

verus! {

/// A number of a step: how it is written, what it is in single precision, and as many database units as it is
/// microns.
#[derive(Debug)]
pub struct StepNumber<F: Copy> {
    pub written: String,
    pub single: F,
    pub units: i32,
}

/// What the numbers of a step are.
pub type Numbers<F> = Vec<StepNumber<F>>;

/// The routing levels of the layers that a step names; a layer that is not there has none.
pub type Levels = Vec<(String, i32)>;

/// A step of a job with what its layers and numbers are. A number that is not told counts as none.
#[derive(Debug)]
pub struct StepFields<'a, F: Copy> {
    pub step: &'a Json,
    pub levels: &'a Levels,
    pub numbers: &'a Numbers<F>,
}

/// The level of the first layer of a name, from the `k`-th on.
pub open spec fn level_from(v: Seq<(String, i32)>, name: Seq<char>, k: int) -> int
    decreases v.len() - k,
{
    if k >= v.len() {
        0
    } else if v[k].0@ == name {
        v[k].1 as int
    } else {
        level_from(v, name, k + 1)
    }
}

/// What the first number that is written so is, from the `k`-th on.
pub open spec fn number_from<F: Copy>(v: Seq<StepNumber<F>>, written: Seq<char>, k: int) -> Option<(F, i32)>
    decreases v.len() - k,
{
    if k >= v.len() {
        None
    } else if v[k].written@ == written {
        Some((v[k].single, v[k].units))
    } else {
        number_from(v, written, k + 1)
    }
}

/// What a value is as a number, where it is one.
pub open spec fn number_in<F: Copy>(v: Option<JsonModel>, numbers: Seq<StepNumber<F>>) -> Option<(F, i32)> {
    match v {
        Some(m) => match m.kind {
            KindModel::Number { whole } => number_from(numbers, m.shown, 0),
            _ => None,
        },
        None => None,
    }
}

pub open spec fn single_in<F: Copy>(v: Option<JsonModel>, numbers: Seq<StepNumber<F>>) -> Option<F> {
    match number_in(v, numbers) {
        Some(n) => Some(n.0),
        None => None,
    }
}

/// How the value of a field is written; one that is not there is nothing.
pub open spec fn shown_as(v: Option<JsonModel>) -> Seq<char> {
    match v {
        Some(m) => m.shown,
        None => "null"@,
    }
}

/// The level that a value names, or what is wrong with it.
pub open spec fn level_in(v: Option<JsonModel>, levels: Seq<(String, i32)>) -> Result<i32, Seq<char>> {
    match text_in(v) {
        None => Err("a layer name, got "@ + shown_as(v)),
        Some(name) => {
            let l = level_from(levels, name, 0);
            if l <= 0 { Err(name + " is not a routing layer"@) } else { Ok(l as i32) }
        },
    }
}

/// The two levels that a list names, or what is wrong with the first that is.
pub open spec fn levels_in(l: Seq<JsonModel>, levels: Seq<(String, i32)>) -> Result<(i32, i32), Seq<char>> {
    match level_in(Some(l[0]), levels) {
        Err(e) => Err(e),
        Ok(lo) => match level_in(Some(l[1]), levels) {
            Err(e) => Err(e),
            Ok(hi) => Ok((lo, hi)),
        },
    }
}

/// The two levels of a field that need not be there: anything but a list of two is passed over.
pub open spec fn range_in(v: Option<JsonModel>, levels: Seq<(String, i32)>) -> Result<Option<(i32, i32)>, Seq<char>> {
    match list_in(v) {
        Some(l) => if l.len() == 2 {
            match levels_in(l, levels) {
                Ok(r) => Ok(Some(r)),
                Err(e) => Err(e),
            }
        } else {
            Ok(None)
        },
        None => Ok(None),
    }
}

/// The numbers among the first `n` values of a list.
pub open spec fn numbers_upto<F: Copy>(l: Seq<JsonModel>, numbers: Seq<StepNumber<F>>, n: int) -> Seq<(F, i32)>
    decreases n,
{
    if n <= 0 {
        Seq::empty()
    } else {
        match number_in(Some(l[n - 1]), numbers) {
            Some(f) => numbers_upto(l, numbers, n - 1).push(f),
            None => numbers_upto(l, numbers, n - 1),
        }
    }
}

/// The texts among the first `n` values of a list.
pub open spec fn texts_upto(l: Seq<JsonModel>, n: int) -> Seq<Seq<char>>
    decreases n,
{
    if n <= 0 {
        Seq::empty()
    } else {
        match text_in(Some(l[n - 1])) {
            Some(t) => texts_upto(l, n - 1).push(t),
            None => texts_upto(l, n - 1),
        }
    }
}

/// A step, its texts as sequences.
pub enum StepModel<F: Copy> {
    SetRoutingLayers { signal: Option<(i32, i32)>, clock: Option<(i32, i32)> },
    LayerAdjustment { lo: i32, hi: i32, value: F },
    GlobalAdjustment { value: F },
    RegionAdjustment(RegionAdjustment<F>),
    RoutingAlpha { alpha: F, min_fanout: Option<i32> },
    NetsToRoute { patterns: Seq<Seq<char>> },
    GlobalRoute(CallOptions<F>),
    WriteGuides { path: Seq<char> },
    Unknown { quoted: Seq<char> },
}

impl<F: Copy> View for JobStep<F> {
    type V = StepModel<F>;

    open spec fn view(&self) -> StepModel<F> {
        match *self {
            JobStep::SetRoutingLayers { signal, clock } => StepModel::SetRoutingLayers { signal, clock },
            JobStep::LayerAdjustment { lo, hi, value } => StepModel::LayerAdjustment { lo, hi, value },
            JobStep::GlobalAdjustment { value } => StepModel::GlobalAdjustment { value },
            JobStep::RegionAdjustment(r) => StepModel::RegionAdjustment(r),
            JobStep::RoutingAlpha { alpha, min_fanout } => StepModel::RoutingAlpha { alpha, min_fanout },
            JobStep::NetsToRoute { patterns } => StepModel::NetsToRoute { patterns: crate::text::texts(patterns@) },
            JobStep::GlobalRoute(c) => StepModel::GlobalRoute(c),
            JobStep::WriteGuides { path } => StepModel::WriteGuides { path: path@ },
            JobStep::Unknown { quoted } => StepModel::Unknown { quoted: quoted@ },
        }
    }
}

impl<F: Copy> StepFields<'_, F> {
    /// The value of a field, where it is given.
    pub open spec fn get(&self, name: Seq<char>) -> Option<JsonModel> {
        field_in(self.step@, name)
    }

    /// What the step is called, nothing where that is not a text.
    pub open spec fn command(&self) -> Seq<char> {
        match text_in(self.get("cmd"@)) {
            Some(t) => t,
            None => ""@,
        }
    }

    /// Whether a region is to be adjusted that has fewer than four corners.
    pub open spec fn lacks_corners(&self) -> bool {
        &&& self.command() == "region_adjustment"@
        &&& level_in(self.get("layer"@), self.levels@) is Ok
        &&& list_in(self.get("rect_um"@)) matches Some(l) && numbers_upto(l, self.numbers@, l.len() as int).len() < 4
    }

    pub open spec fn layer_adjustment(&self) -> Result<StepModel<F>, Seq<char>> {
        match list_in(self.get("layers"@)) {
            None => Err("layers"@),
            Some(l) => if l.len() != 2 {
                Err("layers: [lo, hi]"@)
            } else {
                match single_in(self.get("value"@), self.numbers@) {
                    None => Err("value"@),
                    Some(value) => match levels_in(l, self.levels@) {
                        Err(e) => Err(e),
                        Ok((lo, hi)) => Ok(StepModel::LayerAdjustment { lo, hi, value }),
                    },
                }
            },
        }
    }

    pub open spec fn region_adjustment(&self, zero: F) -> Result<StepModel<F>, Seq<char>> {
        match list_in(self.get("rect_um"@)) {
            None => Err("rect_um"@),
            Some(l) => match level_in(self.get("layer"@), self.levels@) {
                Err(e) => Err(e),
                Ok(layer) => {
                    let r = numbers_upto(l, self.numbers@, l.len() as int);
                    let rect = Rect { x_min: r[0].1, y_min: r[1].1, x_max: r[2].1, y_max: r[3].1 };
                    let value = match single_in(self.get("value"@), self.numbers@) {
                        Some(v) => v,
                        None => zero,
                    };
                    Ok(StepModel::RegionAdjustment(RegionAdjustment { rect, layer, value }))
                },
            },
        }
    }

    pub open spec fn call(&self) -> CallOptions<F> {
        CallOptions {
            verbose: flag_in(self.get("verbose"@)) == Some(true),
            allow_congestion: flag_in(self.get("allow_congestion"@)) == Some(true),
            grid_origin: match list_in(self.get("grid_origin"@)) {
                Some(l) => if l.len() == 2 { Some((or_nothing(whole_in(Some(l[0]))), or_nothing(whole_in(Some(l[1]))))) } else { None },
                None => None,
            },
            skip_large_fanout: whole_in(self.get("skip_large_fanout"@)),
            congestion_iterations: whole_in(self.get("congestion_iterations"@)),
            critical_nets_percentage: single_in(self.get("critical_nets_percentage"@), self.numbers@),
        }
    }

    /// The step that the fields give, or what is wrong with them.
    pub open spec fn step(&self, quoted: Seq<char>, zero: F) -> Result<StepModel<F>, Seq<char>> {
        let cmd = self.command();
        if cmd == "set_routing_layers"@ {
            match range_in(self.get("signal"@), self.levels@) {
                Err(e) => Err(e),
                Ok(signal) => match range_in(self.get("clock"@), self.levels@) {
                    Err(e) => Err(e),
                    Ok(clock) => Ok(StepModel::SetRoutingLayers { signal, clock }),
                },
            }
        } else if cmd == "layer_adjustment"@ {
            self.layer_adjustment()
        } else if cmd == "global_adjustment"@ {
            match single_in(self.get("value"@), self.numbers@) {
                Some(value) => Ok(StepModel::GlobalAdjustment { value }),
                None => Err("value"@),
            }
        } else if cmd == "region_adjustment"@ {
            self.region_adjustment(zero)
        } else if cmd == "routing_alpha"@ {
            match single_in(self.get("alpha"@), self.numbers@) {
                Some(alpha) => Ok(StepModel::RoutingAlpha { alpha, min_fanout: whole_in(self.get("min_fanout"@)) }),
                None => Err("alpha"@),
            }
        } else if cmd == "nets_to_route"@ {
            match list_in(self.get("patterns"@)) {
                Some(l) => Ok(StepModel::NetsToRoute { patterns: texts_upto(l, l.len() as int) }),
                None => Err("patterns"@),
            }
        } else if cmd == "global_route"@ {
            Ok(StepModel::GlobalRoute(self.call()))
        } else if cmd == "write_guides"@ {
            match text_in(self.get("path"@)) {
                Some(path) => Ok(StepModel::WriteGuides { path }),
                None => Err("path"@),
            }
        } else {
            Ok(StepModel::Unknown { quoted })
        }
    }
}

/// A number, 0 where there is none.
pub open spec fn or_nothing(v: Option<i32>) -> i32 {
    match v {
        Some(n) => n,
        None => 0,
    }
}

fn number_of<F: Copy>(v: Option<&Json>, numbers: &Numbers<F>) -> (r: Option<(F, i32)>)
    ensures
        r == number_in(held_in(v), numbers@),
{
    match v {
        Some(j) => match &j.kind {
            JsonKind::Number { whole } => {
                let mut k: usize = 0;
                while k < numbers.len()
                    invariant
                        k <= numbers@.len(),
                        number_from(numbers@, j.shown@, k as int) == number_from(numbers@, j.shown@, 0),
                        held_in(v) == Some(j@),
                        j@.kind is Number,
                    decreases numbers@.len() - k,
                {
                    if same_text(numbers[k].written.as_str(), j.shown.as_str()) {
                        return Some((numbers[k].single, numbers[k].units));
                    }
                    k += 1;
                }
                None
            },
            _ => None,
        },
        None => None,
    }
}

fn single_of<F: Copy>(v: Option<&Json>, numbers: &Numbers<F>) -> (r: Option<F>)
    ensures
        r == single_in(held_in(v), numbers@),
{
    match number_of(v, numbers) {
        Some(n) => Some(n.0),
        None => None,
    }
}

fn fail<T>(why: &str) -> (r: Result<T, Fail>)
    ensures
        r matches Err(Fail::Error(s)) && s@ == why@,
{
    Err(Fail::Error(String::from_str(why)))
}

/// Whether a result is that of a model: what goes well is the same, and an error is told in the same words.
spec fn agrees<T>(r: Result<T, Fail>, m: Result<T, Seq<char>>) -> bool {
    match m {
        Ok(v) => r == Ok::<T, Fail>(v),
        Err(e) => r matches Err(Fail::Error(s)) && s@ == e,
    }
}

fn level_of(v: Option<&Json>, levels: &Levels) -> (r: Result<i32, Fail>)
    ensures
        agrees(r, level_in(held_in(v), levels@)),
{
    match text_of(v) {
        None => {
            let mut why = String::from_str("a layer name, got ");
            match v {
                Some(f) => {
                    why.append(f.shown.as_str());
                },
                None => {
                    why.append("null");
                },
            }
            Err(Fail::Error(why))
        },
        Some(name) => {
            let mut k: usize = 0;
            while k < levels.len() && !same_text(levels[k].0.as_str(), name)
                invariant
                    k <= levels@.len(),
                    level_from(levels@, name@, k as int) == level_from(levels@, name@, 0),
                decreases levels@.len() - k,
            {
                k += 1;
            }
            let level: i32 = if k < levels.len() { levels[k].1 } else { 0 };
            routing_level(name, level)
        },
    }
}

fn levels_of(l: &Vec<Json>, levels: &Levels) -> (r: Result<(i32, i32), Fail>)
    requires
        l@.len() == 2,
    ensures
        agrees(r, levels_in(models(l@), levels@)),
{
    let lo: i32 = match level_of(Some(&l[0]), levels) {
        Ok(n) => n,
        Err(e) => {
            return Err(e);
        },
    };
    match level_of(Some(&l[1]), levels) {
        Ok(hi) => Ok((lo, hi)),
        Err(e) => Err(e),
    }
}

fn range_of(v: Option<&Json>, levels: &Levels) -> (r: Result<Option<(i32, i32)>, Fail>)
    ensures
        agrees(r, range_in(held_in(v), levels@)),
{
    match list_of(v) {
        Some(l) => {
            if l.len() == 2 {
                match levels_of(l, levels) {
                    Ok(p) => Ok(Some(p)),
                    Err(e) => Err(e),
                }
            } else {
                Ok(None)
            }
        },
        None => Ok(None),
    }
}

fn numbers_of<F: Copy>(l: &Vec<Json>, numbers: &Numbers<F>) -> (r: Vec<(F, i32)>)
    ensures
        r@ == numbers_upto(models(l@), numbers@, l@.len() as int),
{
    let mut r: Vec<(F, i32)> = Vec::new();
    let mut k: usize = 0;
    while k < l.len()
        invariant
            k <= l@.len(),
            r@ == numbers_upto(models(l@), numbers@, k as int),
        decreases l@.len() - k,
    {
        match number_of(Some(&l[k]), numbers) {
            Some(n) => {
                r.push(n);
            },
            None => {},
        }
        k += 1;
    }
    r
}

fn texts_of(l: &Vec<Json>) -> (r: Vec<String>)
    ensures
        crate::text::texts(r@) == texts_upto(models(l@), l@.len() as int),
{
    let mut r: Vec<String> = Vec::new();
    let mut k: usize = 0;
    assert(crate::text::texts(r@) =~= texts_upto(models(l@), 0));
    while k < l.len()
        invariant
            k <= l@.len(),
            crate::text::texts(r@) == texts_upto(models(l@), k as int),
        decreases l@.len() - k,
    {
        match text_of(Some(&l[k])) {
            Some(t) => {
                crate::text::push_text(&mut r, String::from_str(t));
            },
            None => {},
        }
        k += 1;
    }
    r
}

/// Whether a result is the step that a model gives, or its error.
pub open spec fn is_read<F: Copy>(r: Result<JobStep<F>, Fail>, m: Result<StepModel<F>, Seq<char>>) -> bool {
    match m {
        Ok(s) => r matches Ok(step) && step@ == s,
        Err(e) => r matches Err(Fail::Error(s)) && s@ == e,
    }
}

impl<F: Copy> StepFields<'_, F> {
    fn find(&self, name: &str) -> (r: Option<&Json>)
        ensures
            held_in(r) == self.get(name@),
    {
        self.step.field(name)
    }

    fn is_called(&self, name: &str) -> (r: bool)
        ensures
            r == (self.command() == name@),
    {
        match text_of(self.find("cmd")) {
            Some(t) => same_text(t, name),
            None => same_text("", name),
        }
    }

    /// Whether a region is to be adjusted that has fewer than four corners.
    pub fn has_no_region(&self) -> (r: bool)
        ensures
            r == self.lacks_corners(),
    {
        if !self.is_called("region_adjustment") {
            return false;
        }
        match level_of(self.find("layer"), self.levels) {
            Ok(_) => {},
            Err(_) => {
                return false;
            },
        }
        match list_of(self.find("rect_um")) {
            Some(l) => {
                let n = numbers_of(l, self.numbers);
                n.len() < 4
            },
            None => false,
        }
    }

    fn read_layer_adjustment(&self) -> (r: Result<JobStep<F>, Fail>)
        ensures
            is_read(r, self.layer_adjustment()),
    {
        match list_of(self.find("layers")) {
            None => fail("layers"),
            Some(l) => {
                if l.len() != 2 {
                    return fail("layers: [lo, hi]");
                }
                match single_of(self.find("value"), self.numbers) {
                    None => fail("value"),
                    Some(value) => match levels_of(l, self.levels) {
                        Ok((lo, hi)) => Ok(JobStep::LayerAdjustment { lo, hi, value }),
                        Err(e) => Err(e),
                    },
                }
            },
        }
    }

    fn read_region_adjustment(&self, zero: F) -> (r: Result<JobStep<F>, Fail>)
        requires
            self.command() == "region_adjustment"@,
            !self.lacks_corners(),
        ensures
            is_read(r, self.region_adjustment(zero)),
    {
        match list_of(self.find("rect_um")) {
            None => fail("rect_um"),
            Some(l) => {
                let layer: i32 = match level_of(self.find("layer"), self.levels) {
                    Ok(n) => n,
                    Err(e) => {
                        return Err(e);
                    },
                };
                let n = numbers_of(l, self.numbers);
                let rect = Rect { x_min: n[0].1, y_min: n[1].1, x_max: n[2].1, y_max: n[3].1 };
                let value = match single_of(self.find("value"), self.numbers) {
                    Some(v) => v,
                    None => zero,
                };
                Ok(JobStep::RegionAdjustment(RegionAdjustment { rect, layer, value }))
            },
        }
    }

    fn read_call(&self) -> (c: CallOptions<F>)
        ensures
            c == self.call(),
    {
        let grid_origin: Option<(i32, i32)> = match list_of(self.find("grid_origin")) {
            Some(l) => {
                if l.len() == 2 {
                    let x: i32 = match whole_of(Some(&l[0])) {
                        Some(n) => n,
                        None => 0,
                    };
                    let y: i32 = match whole_of(Some(&l[1])) {
                        Some(n) => n,
                        None => 0,
                    };
                    Some((x, y))
                } else {
                    None
                }
            },
            None => None,
        };
        CallOptions {
            verbose: is_set(self.find("verbose")),
            allow_congestion: is_set(self.find("allow_congestion")),
            grid_origin,
            skip_large_fanout: whole_of(self.find("skip_large_fanout")),
            congestion_iterations: whole_of(self.find("congestion_iterations")),
            critical_nets_percentage: single_of(self.find("critical_nets_percentage"), self.numbers),
        }
    }

    /// Reads a step. A command that is not known is carried along as it is quoted.
    ///
    /// A region of fewer than four corners cannot be read (see [`StepFields::has_no_region`]).
    #[verifier::rlimit(40)]
    pub fn read(&self, quoted: &str, zero: F) -> (r: Result<JobStep<F>, Fail>)
        requires
            !self.lacks_corners(),
        ensures
            is_read(r, self.step(quoted@, zero)),
    {
        if self.is_called("set_routing_layers") {
            let signal = match range_of(self.find("signal"), self.levels) {
                Ok(p) => p,
                Err(e) => {
                    return Err(e);
                },
            };
            return match range_of(self.find("clock"), self.levels) {
                Ok(clock) => Ok(JobStep::SetRoutingLayers { signal, clock }),
                Err(e) => Err(e),
            };
        }
        if self.is_called("layer_adjustment") {
            return self.read_layer_adjustment();
        }
        if self.is_called("global_adjustment") {
            return match single_of(self.find("value"), self.numbers) {
                Some(value) => Ok(JobStep::GlobalAdjustment { value }),
                None => fail("value"),
            };
        }
        if self.is_called("region_adjustment") {
            return self.read_region_adjustment(zero);
        }
        if self.is_called("routing_alpha") {
            return match single_of(self.find("alpha"), self.numbers) {
                Some(alpha) => Ok(JobStep::RoutingAlpha { alpha, min_fanout: whole_of(self.find("min_fanout")) }),
                None => fail("alpha"),
            };
        }
        if self.is_called("nets_to_route") {
            return match list_of(self.find("patterns")) {
                Some(l) => Ok(JobStep::NetsToRoute { patterns: texts_of(l) }),
                None => fail("patterns"),
            };
        }
        if self.is_called("global_route") {
            return Ok(JobStep::GlobalRoute(self.read_call()));
        }
        if self.is_called("write_guides") {
            return match text_of(self.find("path")) {
                Some(path) => Ok(JobStep::WriteGuides { path: String::from_str(path) }),
                None => fail("path"),
            };
        }
        Ok(JobStep::Unknown { quoted: String::from_str(quoted) })
    }
}

/// The texts of a list are those of its values that are texts, in order.
pub proof fn the_texts_of_a_list_are_those_it_holds(l: Seq<JsonModel>, n: int)
    requires
        0 <= n,
    ensures
        texts_upto(l, n) == all_of(
            n,
            |k: int| if text_in(Some(l[k])) is Some { seq![text_in(Some(l[k]))->Some_0] } else { Seq::empty() },
        ),
    decreases n,
{
    let f = |k: int| if text_in(Some(l[k])) is Some { seq![text_in(Some(l[k]))->Some_0] } else { Seq::empty() };
    if n > 0 {
        the_texts_of_a_list_are_those_it_holds(l, n - 1);
        lemma_all_next(n - 1, f);
    } else {
        lemma_all_none(f);
    }
    assert(texts_upto(l, n) =~= all_of(n, f));
}

} // verus!
