//! The text of a job: what it holds as JSON, and what is read of it before its steps.

use vstd::prelude::*;
use vstd::string::StringExecFns;

use crate::callbacks::same_text;
use crate::cli::Fail;
use crate::text::{push_text, texts};

verus! {

// ---- values ----

/// A JSON value, and how it is written.
#[derive(Debug)]
pub struct Json {
    pub shown: String,
    pub kind: JsonKind,
}

/// What a JSON value is. A number's own text is how its value is written.
#[derive(Debug)]
pub enum JsonKind {
    Null,
    Flag(bool),
    /// The number, where it is a whole one of 64 bits.
    Number { whole: Option<i64> },
    Text(String),
    List(Vec<Json>),
    /// The fields, each once.
    Object(Vec<(String, Json)>),
}

/// A JSON value, its texts and lists as sequences.
#[verifier::ext_equal]
pub struct JsonModel {
    pub shown: Seq<char>,
    pub kind: KindModel,
}

#[verifier::ext_equal]
pub enum KindModel {
    Null,
    Flag(bool),
    Number { whole: Option<i64> },
    Text(Seq<char>),
    List(Seq<JsonModel>),
    Object(Seq<(Seq<char>, JsonModel)>),
}

/// What a value holds.
pub open spec fn json_model(j: Json) -> JsonModel
    decreases j,
{
    JsonModel {
        shown: j.shown@,
        kind: match j.kind {
            JsonKind::Null => KindModel::Null,
            JsonKind::Flag(b) => KindModel::Flag(b),
            JsonKind::Number { whole } => KindModel::Number { whole },
            JsonKind::Text(t) => KindModel::Text(t@),
            JsonKind::List(v) => KindModel::List(Seq::new(v.len() as nat, |i: int| if 0 <= i < v.len() { json_model(v[i]) } else { arbitrary() })),
            JsonKind::Object(v) => KindModel::Object(
                Seq::new(v.len() as nat, |i: int| if 0 <= i < v.len() { (v[i].0@, json_model(v[i].1)) } else { arbitrary() }),
            ),
        },
    }
}

impl View for Json {
    type V = JsonModel;

    open spec fn view(&self) -> JsonModel {
        json_model(*self)
    }
}


// ---- parsing ----

/// `serde_json::Value`, a parsed value. Nothing is seen inside it but by [`shown_of`] and [`take_apart`].
#[verifier::external_type_specification]
#[verifier::external_body]
pub struct ExValue(serde_json::Value);

/// What a parsed value holds: how it is written, and its kind with the values below it.
pub uninterp spec fn value_held(v: serde_json::Value) -> JsonModel;

/// What a text is as JSON, or what is wrong with it.
pub uninterp spec fn parsed(text: Seq<char>) -> Result<JsonModel, Seq<char>>;

/// A parsed value taken apart, the values below it as they are.
enum Parts {
    Null,
    Flag(bool),
    Number { whole: Option<i64> },
    Text(String),
    List(Vec<serde_json::Value>),
    Object(Vec<(String, serde_json::Value)>),
}

/// The kind of a value that is taken apart.
spec fn parts_held(p: Parts) -> KindModel {
    match p {
        Parts::Null => KindModel::Null,
        Parts::Flag(b) => KindModel::Flag(b),
        Parts::Number { whole } => KindModel::Number { whole },
        Parts::Text(t) => KindModel::Text(t@),
        Parts::List(v) => KindModel::List(v@.map_values(|x: serde_json::Value| value_held(x))),
        Parts::Object(v) => KindModel::Object(v@.map_values(|f: (String, serde_json::Value)| (f.0@, value_held(f.1)))),
    }
}

/// `serde_json::from_str` into a `serde_json::Value`: the value that the text is, or the error's own words. Both
/// depend on the text alone, and are named by [`parsed`].
#[verifier::external_body]
fn value_of(text: &str) -> (r: Result<serde_json::Value, String>)
    ensures
        match r {
            Ok(v) => parsed(text@) == Ok::<JsonModel, Seq<char>>(value_held(v)),
            Err(e) => parsed(text@) == Err::<JsonModel, Seq<char>>(e@),
        },
{
    serde_json::from_str::<serde_json::Value>(text).map_err(|e| e.to_string())
}

/// The text of a `serde_json::Value` by its `Display`: the value in compact JSON.
#[verifier::external_body]
fn shown_of(v: &serde_json::Value) -> (s: String)
    ensures
        s@ == value_held(*v).shown,
{
    v.to_string()
}

/// The variants of a `serde_json::Value`, told apart: a number gives its `as_i64`, and an object its fields in the
/// order of its map.
#[verifier::external_body]
fn take_apart(v: serde_json::Value) -> (p: Parts)
    ensures
        parts_held(p) == value_held(v).kind,
{
    match v {
        serde_json::Value::Null => Parts::Null,
        serde_json::Value::Bool(b) => Parts::Flag(b),
        serde_json::Value::Number(n) => Parts::Number { whole: n.as_i64() },
        serde_json::Value::String(s) => Parts::Text(s),
        serde_json::Value::Array(a) => Parts::List(a),
        serde_json::Value::Object(m) => Parts::Object(m.into_iter().collect()),
    }
}

fn json_of(v: serde_json::Value) -> (j: Json)
    ensures
        j@ == value_held(v),
    decreases value_held(v),
{
    let ghost m = value_held(v);
    let shown = shown_of(&v);
    let kind = match take_apart(v) {
        Parts::Null => JsonKind::Null,
        Parts::Flag(b) => JsonKind::Flag(b),
        Parts::Number { whole } => JsonKind::Number { whole },
        Parts::Text(t) => JsonKind::Text(t),
        Parts::List(items) => {
            let ghost all = items@.map_values(|x: serde_json::Value| value_held(x));
            let mut rest = items;
            let mut out: Vec<Json> = Vec::new();
            while rest.len() > 0
                invariant
                    m == value_held(v),
                    m.kind == KindModel::List(all),
                    out@.len() + rest@.len() == all.len(),
                    forall|i: int| 0 <= i < out@.len() ==> (#[trigger] out@[i])@ == all[i],
                    forall|i: int| 0 <= i < rest@.len() ==> value_held(#[trigger] rest@[i]) == all[out@.len() + i],
                decreases rest@.len(),
            {
                let ghost k = out@.len() as int;
                let x = rest.remove(0);
                assert(value_held(x) == all[k]);
                assert(decreases_to!(m => m.kind->List_0));
                assert(decreases_to!(all => all[k]));
                out.push(json_of(x));
            }
            assert(json_model(Json { shown, kind: JsonKind::List(out) }).kind->List_0 =~= all);
            JsonKind::List(out)
        },
        Parts::Object(items) => {
            let ghost all = items@.map_values(|f: (String, serde_json::Value)| (f.0@, value_held(f.1)));
            let mut rest = items;
            let mut out: Vec<(String, Json)> = Vec::new();
            while rest.len() > 0
                invariant
                    m == value_held(v),
                    m.kind == KindModel::Object(all),
                    out@.len() + rest@.len() == all.len(),
                    forall|i: int| 0 <= i < out@.len() ==> ((#[trigger] out@[i]).0@, out@[i].1@) == all[i],
                    forall|i: int| 0 <= i < rest@.len() ==> ((#[trigger] rest@[i]).0@, value_held(rest@[i].1)) == all[out@.len() + i],
                decreases rest@.len(),
            {
                let ghost k = out@.len() as int;
                let f = rest.remove(0);
                assert((f.0@, value_held(f.1)) == all[k]);
                assert(decreases_to!(m => m.kind->Object_0));
                assert(decreases_to!(all => all[k]));
                assert(decreases_to!(all[k] => all[k].1));
                out.push((f.0, json_of(f.1)));
            }
            assert(json_model(Json { shown, kind: JsonKind::Object(out) }).kind->Object_0 =~= all);
            JsonKind::Object(out)
        },
    };
    Json { shown, kind }
}

/// Parses a text, or says what is wrong with it.
pub fn parse(text: &str) -> (r: Result<Json, String>)
    ensures
        match r {
            Ok(j) => parsed(text@) == Ok::<JsonModel, Seq<char>>(j@),
            Err(e) => parsed(text@) == Err::<JsonModel, Seq<char>>(e@),
        },
{
    match value_of(text) {
        Ok(v) => Ok(json_of(v)),
        Err(e) => Err(e),
    }
}


// ---- fields ----

/// The value of the first field of a name, from the `k`-th on.
pub open spec fn field_from(v: Seq<(Seq<char>, JsonModel)>, name: Seq<char>, k: int) -> Option<JsonModel>
    decreases v.len() - k,
{
    if k >= v.len() {
        None
    } else if v[k].0 == name {
        Some(v[k].1)
    } else {
        field_from(v, name, k + 1)
    }
}

/// The field of a name of a value, where it is an object that has it.
pub open spec fn field_in(m: JsonModel, name: Seq<char>) -> Option<JsonModel> {
    match m.kind {
        KindModel::Object(v) => field_from(v, name, 0),
        _ => None,
    }
}

pub open spec fn text_in(v: Option<JsonModel>) -> Option<Seq<char>> {
    match v {
        Some(m) => match m.kind {
            KindModel::Text(t) => Some(t),
            _ => None,
        },
        None => None,
    }
}

pub open spec fn flag_in(v: Option<JsonModel>) -> Option<bool> {
    match v {
        Some(m) => match m.kind {
            KindModel::Flag(b) => Some(b),
            _ => None,
        },
        None => None,
    }
}

pub open spec fn list_in(v: Option<JsonModel>) -> Option<Seq<JsonModel>> {
    match v {
        Some(m) => match m.kind {
            KindModel::List(l) => Some(l),
            _ => None,
        },
        None => None,
    }
}

/// A whole number of a field, as far as 32 bits hold it.
pub open spec fn whole_in(v: Option<JsonModel>) -> Option<i32> {
    match v {
        Some(m) => match m.kind {
            KindModel::Number { whole: Some(w) } => Some(w as i32),
            _ => None,
        },
        None => None,
    }
}

/// The values of a list.
pub open spec fn models(v: Seq<Json>) -> Seq<JsonModel> {
    v.map_values(|j: Json| j@)
}

/// What a value holds, where there is one.
pub open spec fn held_in(v: Option<&Json>) -> Option<JsonModel> {
    match v {
        Some(j) => Some(j@),
        None => None,
    }
}

impl Json {
    /// The field of a name, where the value is an object that has it.
    pub fn field<'a>(&'a self, name: &str) -> (r: Option<&'a Json>)
        ensures
            held_in(r) == field_in(self@, name@),
    {
        match &self.kind {
            JsonKind::Object(v) => {
                let ghost all = self@.kind->Object_0;
                let mut k: usize = 0;
                while k < v.len()
                    invariant
                        self@.kind == KindModel::Object(all),
                        all.len() == v@.len(),
                        forall|i: int| 0 <= i < v@.len() ==> #[trigger] all[i] == (v@[i].0@, v@[i].1@),
                        k <= v@.len(),
                        field_from(all, name@, k as int) == field_from(all, name@, 0),
                    decreases v@.len() - k,
                {
                    assert(all[k as int] == (v@[k as int].0@, v@[k as int].1@));
                    if same_text(v[k].0.as_str(), name) {
                        return Some(&v[k].1);
                    }
                    k += 1;
                }
                None
            },
            _ => None,
        }
    }
}

pub fn text_of<'a>(v: Option<&'a Json>) -> (r: Option<&'a str>)
    ensures
        match r {
            Some(t) => text_in(held_in(v)) == Some(t@),
            None => text_in(held_in(v)) is None,
        },
{
    match v {
        Some(j) => match &j.kind {
            JsonKind::Text(t) => Some(t.as_str()),
            _ => None,
        },
        None => None,
    }
}

/// Whether a field is there and set.
pub fn is_set(v: Option<&Json>) -> (r: bool)
    ensures
        r == (flag_in(held_in(v)) == Some(true)),
{
    match v {
        Some(j) => match &j.kind {
            JsonKind::Flag(b) => *b,
            _ => false,
        },
        None => false,
    }
}

pub fn list_of<'a>(v: Option<&'a Json>) -> (r: Option<&'a Vec<Json>>)
    ensures
        match r {
            Some(l) => list_in(held_in(v)) == Some(models(l@)),
            None => list_in(held_in(v)) is None,
        },
{
    match v {
        Some(j) => match &j.kind {
            JsonKind::List(l) => {
                assert(j@.kind->List_0 =~= models(l@));
                Some(l)
            },
            _ => None,
        },
        None => None,
    }
}

/// A whole number of a field, as far as 32 bits hold it.
pub fn whole_of(v: Option<&Json>) -> (r: Option<i32>)
    ensures
        r == whole_in(held_in(v)),
{
    match v {
        Some(j) => match &j.kind {
            JsonKind::Number { whole } => match whole {
                Some(w) => Some(#[verifier::truncate] (*w as i32)),
                None => None,
            },
            _ => None,
        },
        None => None,
    }
}

// ---- a job ----

/// Where a design is read from.
#[derive(Debug)]
pub enum DesignSource {
    Def(String),
    Database(String),
}

/// What is read of a job. An entry that is wrong stands in its place, so that what comes before it is read first;
/// and so does a list of steps that is not there.
#[derive(Debug)]
pub struct JobText {
    pub lefs: Vec<Result<String, Fail>>,
    pub source: Option<DesignSource>,
    pub liberty: Vec<Result<String, Fail>>,
    pub steps: Result<Vec<Json>, Fail>,
}

/// Whether a result is an error with those words.
pub open spec fn fails_with<T>(r: Result<T, Fail>, why: Seq<char>) -> bool {
    r matches Err(Fail::Error(s)) && s@ == why
}

/// Whether an entry is the path that a value is, or the error where it is no text.
pub open spec fn is_entry_of(e: Result<String, Fail>, m: JsonModel, why: Seq<char>) -> bool {
    match text_in(Some(m)) {
        Some(t) => e matches Ok(path) && path@ == t,
        None => fails_with(e, why),
    }
}

/// Whether entries are those of a field, in order; one that is no list counts as empty.
pub open spec fn are_entries_of(v: Seq<Result<String, Fail>>, f: Option<JsonModel>, why: Seq<char>) -> bool {
    match list_in(f) {
        Some(l) => v.len() == l.len() && forall|i: int| 0 <= i < l.len() ==> is_entry_of(#[trigger] v[i], l[i], why),
        None => v.len() == 0,
    }
}

/// Whether a design is read from where a job says: from a `def` before a `db`, and from neither where none is a text.
pub open spec fn is_source_of(s: Option<DesignSource>, m: JsonModel) -> bool {
    match (text_in(field_in(m, "def"@)), text_in(field_in(m, "db"@))) {
        (Some(t), _) => s matches Some(DesignSource::Def(path)) && path@ == t,
        (None, Some(t)) => s matches Some(DesignSource::Database(path)) && path@ == t,
        (None, None) => s is None,
    }
}

/// Whether a job is the one that a value holds.
pub open spec fn is_job_of(t: JobText, m: JsonModel) -> bool {
    &&& are_entries_of(t.lefs@, field_in(m, "lefs"@), "a LEF path"@)
    &&& is_source_of(t.source, m)
    &&& are_entries_of(t.liberty@, field_in(m, "liberty"@), "a liberty path"@)
    &&& match list_in(field_in(m, "steps"@)) {
        Some(l) => t.steps matches Ok(steps) && models(steps@) == l,
        None => fails_with(t.steps, "steps"@),
    }
}

fn entries_of(v: Option<&Json>, why: &str) -> (out: Vec<Result<String, Fail>>)
    ensures
        are_entries_of(out@, held_in(v), why@),
{
    let mut out: Vec<Result<String, Fail>> = Vec::new();
    match list_of(v) {
        Some(l) => {
            let mut k: usize = 0;
            while k < l.len()
                invariant
                    k <= l@.len(),
                    out@.len() == k,
                    forall|i: int| 0 <= i < k ==> is_entry_of(#[trigger] out@[i], models(l@)[i], why@),
                decreases l@.len() - k,
            {
                let entry = match text_of(Some(&l[k])) {
                    Some(t) => Ok(String::from_str(t)),
                    None => Err(Fail::Error(String::from_str(why))),
                };
                out.push(entry);
                k += 1;
            }
        },
        None => {},
    }
    out
}

fn take_steps(j: Json) -> (r: Result<Vec<Json>, Fail>)
    ensures
        match list_in(field_in(j@, "steps"@)) {
            Some(l) => r matches Ok(steps) && models(steps@) == l,
            None => fails_with(r, "steps"@),
        },
{
    let ghost m = j@;
    match j.kind {
        JsonKind::Object(fields) => {
            let ghost all = m.kind->Object_0;
            let mut v = fields;
            let mut k: usize = 0;
            while k < v.len() && !same_text(v[k].0.as_str(), "steps")
                invariant
                    all.len() == v@.len(),
                    forall|i: int| 0 <= i < v@.len() ==> #[trigger] all[i] == (v@[i].0@, v@[i].1@),
                    k <= v@.len(),
                    field_from(all, "steps"@, k as int) == field_from(all, "steps"@, 0),
                decreases v@.len() - k,
            {
                assert(all[k as int] == (v@[k as int].0@, v@[k as int].1@));
                k += 1;
            }
            if k < v.len() {
                assert(all[k as int] == (v@[k as int].0@, v@[k as int].1@));
                let (_, s) = v.swap_remove(k);
                let ghost held = s@;
                match s.kind {
                    JsonKind::List(l) => {
                        assert(held.kind->List_0 =~= models(l@));
                        return Ok(l);
                    },
                    _ => {},
                }
            }
            Err(Fail::Error(String::from_str("steps")))
        },
        _ => Err(Fail::Error(String::from_str("steps"))),
    }
}

/// What a job's value says.
pub fn job_of(j: Json) -> (t: JobText)
    ensures
        is_job_of(t, j@),
{
    let lefs = entries_of(j.field("lefs"), "a LEF path");
    let liberty = entries_of(j.field("liberty"), "a liberty path");
    let source = match text_of(j.field("def")) {
        Some(path) => Some(DesignSource::Def(String::from_str(path))),
        None => match text_of(j.field("db")) {
            Some(path) => Some(DesignSource::Database(String::from_str(path))),
            None => None,
        },
    };
    JobText { lefs, source, liberty, steps: take_steps(j) }
}

/// Reads the text of a job, or says why it is no JSON.
pub fn read_job(text: &str) -> (r: Result<JobText, String>)
    ensures
        match r {
            Ok(t) => parsed(text@) matches Ok(m) && is_job_of(t, m),
            Err(e) => parsed(text@) == Err::<JsonModel, Seq<char>>(e@),
        },
{
    match parse(text) {
        Ok(j) => Ok(job_of(j)),
        Err(e) => Err(e),
    }
}

// ---- what a step names ----

/// The texts of a value and of the lists below it, or its numbers as they are written.
pub open spec fn leaves_at(m: JsonModel, numbers: bool) -> Seq<Seq<char>>
    decreases m, 0int,
{
    match m.kind {
        KindModel::Text(t) => if numbers { Seq::empty() } else { seq![t] },
        KindModel::Number { whole } => if numbers { seq![m.shown] } else { Seq::empty() },
        KindModel::List(l) => leaves_upto(l, numbers, l.len() as int),
        _ => Seq::empty(),
    }
}

/// Those of the first `n` values of a list.
pub open spec fn leaves_upto(l: Seq<JsonModel>, numbers: bool, n: int) -> Seq<Seq<char>>
    decreases l, n,
{
    if n <= 0 || n > l.len() {
        Seq::empty()
    } else {
        leaves_upto(l, numbers, n - 1) + leaves_at(l[n - 1], numbers)
    }
}

/// The values of the fields of a value, in order; none where it is no object.
pub open spec fn field_values(m: JsonModel) -> Seq<JsonModel> {
    match m.kind {
        KindModel::Object(v) => v.map_values(|f: (Seq<char>, JsonModel)| f.1),
        _ => Seq::empty(),
    }
}

/// Those of the fields of a step.
pub open spec fn step_leaves(m: JsonModel, numbers: bool) -> Seq<Seq<char>> {
    leaves_upto(field_values(m), numbers, field_values(m).len() as int)
}

fn push_leaves(j: &Json, numbers: bool, out: &mut Vec<String>)
    ensures
        texts(final(out)@) == texts(old(out)@) + leaves_at(j@, numbers),
    decreases j@,
{
    let ghost out0 = texts(out@);
    match &j.kind {
        JsonKind::Text(t) => {
            if !numbers {
                push_text(out, String::from_str(t.as_str()));
            }
            assert(texts(out@) =~= out0 + leaves_at(j@, numbers));
        },
        JsonKind::Number { whole } => {
            if numbers {
                push_text(out, String::from_str(j.shown.as_str()));
            }
            assert(texts(out@) =~= out0 + leaves_at(j@, numbers));
        },
        JsonKind::List(l) => {
            let ghost all = models(l@);
            assert(j@.kind->List_0 =~= all);
            let mut k: usize = 0;
            assert(texts(out@) =~= out0 + leaves_upto(all, numbers, 0));
            while k < l.len()
                invariant
                    all == models(l@),
                    j@.kind == KindModel::List(all),
                    k <= l@.len(),
                    texts(out@) == out0 + leaves_upto(all, numbers, k as int),
                decreases l@.len() - k,
            {
                assert(decreases_to!(j@ => j@.kind->List_0));
                assert(decreases_to!(all => all[k as int]));
                push_leaves(&l[k], numbers, out);
                k += 1;
                assert(texts(out@) =~= out0 + leaves_upto(all, numbers, k as int));
            }
        },
        _ => {
            assert(texts(out@) =~= out0 + leaves_at(j@, numbers));
        },
    }
}

fn leaves_of(step: &Json, numbers: bool) -> (out: Vec<String>)
    ensures
        texts(out@) == step_leaves(step@, numbers),
{
    let mut out: Vec<String> = Vec::new();
    let ghost all = field_values(step@);
    assert(texts(out@) =~= leaves_upto(all, numbers, 0));
    match &step.kind {
        JsonKind::Object(v) => {
            let mut k: usize = 0;
            while k < v.len()
                invariant
                    all.len() == v@.len(),
                    forall|i: int| 0 <= i < v@.len() ==> #[trigger] all[i] == v@[i].1@,
                    k <= v@.len(),
                    texts(out@) == leaves_upto(all, numbers, k as int),
                decreases v@.len() - k,
            {
                assert(all[k as int] == v@[k as int].1@);
                push_leaves(&v[k].1, numbers, &mut out);
                k += 1;
            }
        },
        _ => {},
    }
    out
}

/// The texts of a step's fields: all that may name a layer.
pub fn texts_named(step: &Json) -> (out: Vec<String>)
    ensures
        texts(out@) == step_leaves(step@, false),
{
    leaves_of(step, false)
}

/// The numbers of a step's fields as they are written.
pub fn numbers_written(step: &Json) -> (out: Vec<String>)
    ensures
        texts(out@) == step_leaves(step@, true),
{
    leaves_of(step, true)
}

} // verus!
