use vyges_grt::cli::{exit_status, Fail, GuideBox, StoredGuides};
use vyges_grt::job::{routing_level, CallOptions, CallReport, FirstValues, Job, JobAction, JobStep, RegionAdjustment, RouteOptions};
use vyges_grt::global_route::nets::{NetSlack, SlackSource};
use vyges_grt::json::{job_of, numbers_written, parse, read_job, texts_named, DesignSource, Json, JsonKind};
use vyges_grt::steps::{Levels, Numbers, StepFields, StepNumber};
use vyges_grt::Rect;

fn job(has_liberty: bool) -> Job<f32> {
    Job::new(RouteOptions::new(FirstValues { critical_nets_percentage: 10.0, adjustment: 0.0, alpha: 0.3 }, has_liberty))
}

fn call() -> CallOptions<f32> {
    CallOptions { verbose: false, allow_congestion: false, grid_origin: None, skip_large_fanout: None, congestion_iterations: None, critical_nets_percentage: None }
}

fn guides(net: &str, x0: i32) -> StoredGuides {
    StoredGuides { net: net.into(), boxes: vec![GuideBox { x0, y0: 0, x1: 10, y1: 10, layer: "m1".into() }] }
}

fn take(j: &mut Job<f32>, s: JobStep<f32>) -> JobAction<f32> {
    j.step(s, &vec!["clk".to_string(), "n1".to_string(), "n2".to_string()], 0.0)
}

#[test]
fn a_fresh_run_has_its_defaults() {
    let o = job(false).options;
    assert_eq!((o.critical_nets_percentage, o.adjustment, o.alpha), (10.0, 0.0, 0.3));
    assert_eq!((o.skip_large_fanout, o.congestion_iterations, o.macro_extension, o.grid_origin), (i32::MAX, 50, 0, (0, 0)));
    assert!(o.nets_to_route.is_none() && o.min_fanout_alpha.is_none() && o.region_adjustments.is_empty() && !o.allow_congestion);
}

#[test]
fn steps_change_the_options() {
    let mut j = job(true);
    assert!(matches!(take(&mut j, JobStep::GlobalAdjustment { value: 0.5 }), JobAction::Done));
    take(&mut j, JobStep::RoutingAlpha { alpha: 0.7, min_fanout: Some(8) });
    assert_eq!((j.options.adjustment, j.options.alpha, j.options.min_fanout_alpha), (0.5, 0.3, Some((8, 0.7))));
    take(&mut j, JobStep::RoutingAlpha { alpha: 0.9, min_fanout: None });
    take(&mut j, JobStep::RegionAdjustment(RegionAdjustment { rect: Rect::new(0, 0, 1, 1), layer: 2, value: 0.1 }));
    take(&mut j, JobStep::NetsToRoute { patterns: vec!["n*".into(), "clk".into()] });
    assert_eq!((j.options.alpha, j.options.region_adjustments.len()), (0.9, 1));
    assert_eq!(j.options.nets_to_route, Some(vec!["n1".to_string(), "n2".to_string(), "clk".to_string()]));
    let a = take(&mut j, JobStep::SetRoutingLayers { signal: Some((2, 5)), clock: None });
    assert!(matches!(a, JobAction::SetLayers { signal: Some((2, 5)), clock: None }));
    assert!(matches!(take(&mut j, JobStep::LayerAdjustment { lo: 2, hi: 3, value: 0.2 }), JobAction::AdjustLayers { lo: 2, hi: 3, .. }));
}

#[test]
fn a_call_keeps_what_it_is_not_given() {
    for (has_liberty, critical) in [(true, 30.0), (false, 0.0)] {
        let mut j = job(has_liberty);
        let given = CallOptions { verbose: true, skip_large_fanout: Some(7), critical_nets_percentage: Some(30.0), grid_origin: Some((1, 2)), ..call() };
        assert!(matches!(take(&mut j, JobStep::GlobalRoute(given)), JobAction::Route));
        assert_eq!(j.options.critical_nets_percentage, critical, "without a library no net is critical");
        take(&mut j, JobStep::GlobalRoute(CallOptions { congestion_iterations: Some(3), ..call() }));
        let o = &j.options;
        assert_eq!((o.verbose, o.skip_large_fanout, o.grid_origin, o.congestion_iterations, o.critical_nets_percentage), (false, 7, (1, 2), 3, critical));
    }
}

// A call's guides take the place of those its nets had, and every other net keeps its own.
#[test]
fn guides_of_later_calls_count() {
    let mut j = job(false);
    assert!(j.routed(vec![guides("b", 1), guides("a", 2)], 0, false).is_ok());
    assert!(j.routed(vec![guides("b", 9)], 4, true).is_err());
    assert_eq!(j.calls, vec![CallReport { nets: 2, total_overflow: 0, congested: false }, CallReport { nets: 1, total_overflow: 4, congested: true }]);
    match take(&mut j, JobStep::WriteGuides { path: "g".into() }) {
        JobAction::Write { path, text } => assert_eq!((path.as_str(), text.as_str()), ("g", "a\n(\n2 0 10 10 m1\n)\nb\n(\n9 0 10 10 m1\n)\n")),
        other => panic!("{other:?}"),
    }
    take(&mut j, JobStep::GlobalRoute(CallOptions { allow_congestion: true, ..call() }));
    assert!(j.routed(vec![], 4, false).is_ok(), "congestion is allowed now");
}

#[test]
fn jobs_fail_by_name() {
    let mut j = job(false);
    match j.routed(vec![], 1, true) {
        Err(Fail::Error(why)) => assert_eq!(why, "GRT-0116: Global routing finished with congestion"),
        other => panic!("{other:?}"),
    }
    match take(&mut j, JobStep::Unknown { quoted: "\"repair\"".into() }) {
        JobAction::Fail(f) => {
            assert!(matches!(&f, Fail::Refused(why) if why == "step \"repair\" is not modelled"));
            assert_eq!(exit_status(&f), 1);
        }
        other => panic!("{other:?}"),
    }
    assert!(matches!(routing_level("m3", 3), Ok(3)));
    assert!(matches!(routing_level("cut", 0), Err(Fail::Error(why)) if why == "cut is not a routing layer"));
}

#[test]
fn weights_and_slacks_go_by_the_options() {
    let mut o = job(true).options;
    assert!(o.clock_sources.is_empty() && o.captured_slacks.is_none() && o.net_alpha.is_empty() && o.min_hpwl_alpha.is_none());
    assert!(!o.is_timed());
    assert_eq!(o.slacks(), SlackSource::Unconstrained);
    o.clock_sources.push("clk".into());
    assert!(o.is_timed());
    assert_eq!(o.slacks(), SlackSource::Absent);
    o.captured_slacks = Some(vec![vec![NetSlack { net: "n".into(), slack: 1.5 }]]);
    assert_eq!((o.slacks(), o.update_slacks()), (SlackSource::Captured, SlackSource::Absent));
    assert_eq!(o.net_steiner_alpha("n", 100, 9), 0.3);
    o.min_fanout_alpha = Some((8, 0.5));
    assert_eq!((o.net_steiner_alpha("n", 100, 9), o.net_steiner_alpha("n", 100, 8)), (0.5, 0.3));
    o.min_hpwl_alpha = Some((100, 0.6));
    assert_eq!((o.net_steiner_alpha("n", 100, 2), o.net_steiner_alpha("n", 99, 9)), (0.6, 0.3), "the wirelength rule comes first");
    o.net_alpha.push(("n".into(), 0.9));
    assert_eq!(o.net_steiner_alpha("n", 100, 9), 0.9);
}

fn text(s: &str) -> Json {
    Json { shown: format!("{s:?}"), kind: JsonKind::Text(s.into()) }
}

fn number(n: f32, whole: Option<i64>) -> Json {
    Json { shown: n.to_string(), kind: JsonKind::Number { whole } }
}

fn list(v: Vec<Json>) -> Json {
    Json { shown: "[..]".into(), kind: JsonKind::List(v) }
}

fn flag(b: bool) -> Json {
    Json { shown: b.to_string(), kind: JsonKind::Flag(b) }
}

fn fields(cmd: &str, rest: Vec<(&str, Json)>) -> Json {
    let mut v = vec![("cmd".to_string(), text(cmd))];
    v.extend(rest.into_iter().map(|(n, f)| (n.to_string(), f)));
    Json { shown: "{..}".into(), kind: JsonKind::Object(v) }
}

fn numbers(step: &Json) -> Numbers<f32> {
    let one = |written: String| StepNumber { single: written.parse().unwrap(), units: (written.parse::<f64>().unwrap() * 1000.0) as i32, written };
    numbers_written(step).into_iter().map(one).collect()
}

fn levels() -> Levels {
    vec![("m1".to_string(), 1), ("m2".to_string(), 2), ("cut".to_string(), 0)]
}

fn read_step(step: &Json) -> Result<JobStep<f32>, String> {
    match (StepFields { step, levels: &levels(), numbers: &numbers(step) }).read("quoted", 0.0) {
        Ok(s) => Ok(s),
        Err(Fail::Error(why)) => Err(why),
        Err(Fail::Refused(_)) => panic!("a field is an error"),
    }
}

fn read(cmd: &str, rest: Vec<(&str, Json)>) -> Result<JobStep<f32>, String> {
    read_step(&fields(cmd, rest))
}

fn has_no_region(step: &Json) -> bool {
    StepFields { step, levels: &levels(), numbers: &numbers(step) }.has_no_region()
}

#[test]
fn fields_make_a_step() {
    let both = || list(vec![text("m1"), text("m2")]);
    assert!(matches!(read("set_routing_layers", vec![("signal", both())]), Ok(JobStep::SetRoutingLayers { signal: Some((1, 2)), clock: None })));
    assert!(matches!(read("set_routing_layers", vec![("signal", list(vec![text("m1")])), ("clock", both())]), Ok(JobStep::SetRoutingLayers { signal: None, clock: Some((1, 2)) })));
    assert!(matches!(read("layer_adjustment", vec![("layers", both()), ("value", number(0.5, None))]), Ok(JobStep::LayerAdjustment { lo: 1, hi: 2, value }) if value == 0.5));
    assert!(matches!(read("global_adjustment", vec![("value", number(0.5, None))]), Ok(JobStep::GlobalAdjustment { value }) if value == 0.5));
    let corners = || list(vec![number(1.0, Some(1)), text("x"), number(2.5, None), number(3.0, Some(3)), number(4.0, Some(4)), number(5.0, Some(5))]);
    match read("region_adjustment", vec![("rect_um", corners()), ("layer", text("m2"))]) {
        Ok(JobStep::RegionAdjustment(r)) => assert_eq!((r.rect, r.layer, r.value), (Rect::new(1000, 2500, 3000, 4000), 2, 0.0)),
        other => panic!("{other:?}"),
    }
    assert!(matches!(read("routing_alpha", vec![("alpha", number(0.5, None)), ("min_fanout", number(8.0, Some(8)))]), Ok(JobStep::RoutingAlpha { min_fanout: Some(8), .. })));
    assert!(matches!(read("routing_alpha", vec![("alpha", number(0.5, None)), ("min_fanout", number(8.5, None))]), Ok(JobStep::RoutingAlpha { min_fanout: None, .. })));
    assert!(matches!(read("nets_to_route", vec![("patterns", list(vec![text("a*"), flag(true), text("b")]))]), Ok(JobStep::NetsToRoute { patterns }) if patterns == ["a*", "b"]));
    match read("global_route", vec![("verbose", flag(true)), ("grid_origin", list(vec![number(3.0, Some(3)), text("y")])), ("skip_large_fanout", number(1.0, Some(0x1_0000_0007)))]) {
        Ok(JobStep::GlobalRoute(c)) => {
            assert_eq!((c.verbose, c.allow_congestion, c.grid_origin, c.skip_large_fanout, c.congestion_iterations), (true, false, Some((3, 0)), Some(7), None));
            assert!(c.critical_nets_percentage.is_none());
        }
        other => panic!("{other:?}"),
    }
    assert!(matches!(read("write_guides", vec![("path", text("out"))]), Ok(JobStep::WriteGuides { path }) if path == "out"));
    assert!(matches!(read("other", vec![]), Ok(JobStep::Unknown { quoted }) if quoted == "quoted"));
    assert!(matches!(read_step(&flag(true)), Ok(JobStep::Unknown { .. })), "no object");
}

#[test]
fn the_first_field_that_is_wrong_is_told() {
    let bad = || list(vec![text("cut"), number(1.0, Some(1))]);
    assert_eq!(read("layer_adjustment", vec![("layers", bad())]).unwrap_err(), "value", "the value comes before the layers' names");
    assert_eq!(read("layer_adjustment", vec![("layers", bad()), ("value", number(0.5, None))]).unwrap_err(), "cut is not a routing layer");
    assert_eq!(read("layer_adjustment", vec![("layers", list(vec![]))]).unwrap_err(), "layers: [lo, hi]");
    assert_eq!(read("layer_adjustment", vec![]).unwrap_err(), "layers");
    assert_eq!(read("set_routing_layers", vec![("clock", list(vec![text("m1"), number(1.0, Some(1))]))]).unwrap_err(), "a layer name, got 1");
    assert_eq!(read("global_adjustment", vec![("value", text("x"))]).unwrap_err(), "value");
    assert_eq!(read("region_adjustment", vec![]).unwrap_err(), "rect_um");
    assert_eq!(read("region_adjustment", vec![("rect_um", list(vec![]))]).unwrap_err(), "a layer name, got null");
    assert_eq!(read("routing_alpha", vec![]).unwrap_err(), "alpha");
    assert_eq!(read("nets_to_route", vec![("patterns", text("*"))]).unwrap_err(), "patterns");
    assert_eq!(read("write_guides", vec![]).unwrap_err(), "path");
    assert!(has_no_region(&fields("region_adjustment", vec![("rect_um", list(vec![number(1.0, Some(1))])), ("layer", text("m1"))])));
    assert!(!has_no_region(&fields("region_adjustment", vec![("rect_um", list(vec![]))])));
}

#[test]
fn a_text_is_parsed() {
    let j = parse(" { \"b\": [1, -2.50, \"x\\n\", null, true], \"a\": 1e3, \"b2\": 9223372036854775808 } ").unwrap();
    assert_eq!(j.shown, "{\"a\":1000.0,\"b\":[1,-2.5,\"x\\n\",null,true],\"b2\":9223372036854775808}");
    match &j.field("b").unwrap().kind {
        JsonKind::List(v) => {
            assert!(matches!(v[0].kind, JsonKind::Number { whole: Some(1) }));
            assert!(matches!(v[1].kind, JsonKind::Number { whole: None }) && v[1].shown == "-2.5");
            assert!(matches!(&v[2].kind, JsonKind::Text(t) if t == "x\n"));
            assert!(matches!(v[3].kind, JsonKind::Null) && v[3].shown == "null");
            assert!(matches!(v[4].kind, JsonKind::Flag(true)));
            assert_eq!(v.len(), 5);
        }
        other => panic!("{other:?}"),
    }
    assert!(matches!(j.field("b2").unwrap().kind, JsonKind::Number { whole: None }), "above 63 bits");
    assert!(j.field("c").is_none() && text("x").field("b").is_none());
    assert_eq!((texts_named(&j), numbers_written(&j)), (vec!["x\n".to_string()], vec!["1000.0".to_string(), "1".to_string(), "-2.5".to_string(), "9223372036854775808".to_string()]));
    assert_eq!(parse("{").unwrap_err(), "EOF while parsing an object at line 1 column 1");
    assert!(parse("{} x").is_err() && parse("").is_err());
}

#[test]
fn a_job_is_read() {
    let t = read_job(
        "{ \"lefs\": [\"a.lef\", 7, \"b.lef\"], \"db\": \"x.odb\", \"def\": \"x.def\", \"liberty\": [\"l.lib\", null],
           \"steps\": [{ \"cmd\": \"layer_adjustment\", \"layers\": [\"m1\", \"m2\"], \"value\": 0.5 }, 3] }",
    )
    .unwrap();
    assert_eq!(t.lefs.len(), 3);
    assert!(matches!(&t.lefs[0], Ok(p) if p == "a.lef") && matches!(&t.lefs[2], Ok(p) if p == "b.lef"));
    assert!(matches!(&t.lefs[1], Err(Fail::Error(why)) if why == "a LEF path"), "told in its place");
    assert!(matches!(t.source, Some(DesignSource::Def(p)) if p == "x.def"), "before the database");
    assert!(matches!(&t.liberty[0], Ok(p) if p == "l.lib") && matches!(&t.liberty[1], Err(Fail::Error(why)) if why == "a liberty path"));
    let steps = t.steps.unwrap();
    assert_eq!(steps.len(), 2);
    assert!(matches!(read_step(&steps[0]), Ok(JobStep::LayerAdjustment { lo: 1, hi: 2, value }) if value == 0.5));
    assert!(matches!(read_step(&steps[1]), Ok(JobStep::Unknown { .. })));
    let t = read_job("{ \"lefs\": \"a.lef\", \"def\": 1, \"db\": \"x.odb\", \"steps\": {} }").unwrap();
    assert!(t.lefs.is_empty() && t.liberty.is_empty());
    assert!(matches!(t.source, Some(DesignSource::Database(p)) if p == "x.odb"));
    assert!(matches!(t.steps, Err(Fail::Error(why)) if why == "steps"));
    let t = job_of(flag(true));
    assert!(t.lefs.is_empty() && t.source.is_none() && matches!(t.steps, Err(Fail::Error(why)) if why == "steps"));
    assert_eq!(read_job("nope").unwrap_err(), "expected ident at line 1 column 2");
}
