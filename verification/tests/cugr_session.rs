use vyges_grt::cugr::access::PatternError;
use vyges_grt::cugr::grid_graph::CommitError;
use vyges_grt::cugr::route::{
    admit_run, is_local, layers_to_adjust, pins_moved, replace_route, save_dirty_routes, sorts_by_capture, update_dirty_routes_cugr, update_pin_access_point, AdjustableLayer, AdoptError,
    DirtyError, DirtyNet, NetPin, PinAccess, RouteRefusal,
};
use vyges_grt::cugr::StageError;
use vyges_grt::findrouting::Routes;
use vyges_grt::global_route::results::NetRoute;
use vyges_grt::GSegment;

fn pin(on_grid: (i32, i32), layer: i32) -> NetPin {
    NetPin { name: "p".into(), is_port: false, on_grid, connection_layer: layer }
}

// Order is ignored and repeats are counted.
#[test]
fn a_move_is_a_multiset_difference() {
    let a = || pin((1, 1), 2);
    let b = || pin((2, 1), 2);
    assert!(!pins_moved(&[a(), b()], &[b(), a()]), "order is not a move");
    assert!(pins_moved(&[a(), a(), b()], &[a(), b(), b()]), "same set, other multiset");
    assert!(pins_moved(&[a()], &[pin((1, 1), 3)]), "a layer change is a move");
    assert!(pins_moved(&[a()], &[a(), b()]), "an added pin (a diode) is a move");
}

#[test]
fn a_pin_above_the_top_layer_keeps_its_layer() {
    let mut p = pin((1, 1), 3);
    update_pin_access_point(&mut p, Some(2), (5, 6), 4);
    assert_eq!((p.on_grid, p.connection_layer), ((5, 6), 2));
    let mut p = pin((1, 1), 7);
    update_pin_access_point(&mut p, Some(2), (5, 6), 4);
    assert_eq!((p.on_grid, p.connection_layer), ((5, 6), 7));
    update_pin_access_point(&mut p, None, (0, 0), 4);
    assert_eq!((p.on_grid, p.connection_layer), ((5, 6), 7));
    assert!(is_local(&[pin((1, 1), 2), pin((1, 1), 3)]));
    assert!(!is_local(&[pin((1, 1), 2), pin((1, 2), 2)]));
    assert!(is_local(&[]));
}

fn dirty(name: &str, moved: bool) -> DirtyNet {
    DirtyNet {
        name: name.into(),
        pins: vec![pin((1, 1), 2)],
        fresh: Some(vec![if moved { pin((1, 2), 2) } else { pin((1, 1), 2) }]),
        is_held: true,
        is_in_block: true,
        is_routable: true,
    }
}

fn routed(names: &[&str]) -> Routes {
    let mut r = Routes::new();
    for n in names {
        r.insert(n, vec![GSegment::new(1, 1, 2, 5, 1, 2)]);
    }
    r
}

fn follow(nets: &mut Vec<DirtyNet>, names: &[&str]) -> (Result<Vec<bool>, DirtyError>, Vec<String>) {
    let mut trace = Vec::new();
    let r = update_dirty_routes_cugr(false, true, nets, &routed(names), &mut trace);
    (r, trace)
}

#[test]
fn nets_without_a_route_or_with_moved_pins_are_rerouted() {
    let mut nets = vec![dirty("a", false), dirty("b", false), dirty("c", true)];
    let (r, trace) = follow(&mut nets, &["a", "c"]);
    assert_eq!(r.unwrap(), vec![false, true, true]);
    assert_eq!(trace, vec!["VYGC|dirty|a|route=1|moved=0|reroute=0", "VYGC|dirty|b|route=0|moved=0|reroute=1", "VYGC|dirty|c|route=1|moved=1|reroute=1"]);
    assert_eq!(nets[2].pins[0].on_grid, (1, 2), "the pins read now replace those held");
    assert!(nets[2].fresh.is_none());
    let mut lost = dirty("x", true);
    lost.fresh = None;
    let mut nets = vec![dirty("a", false), lost];
    let (r, trace) = follow(&mut nets, &["a", "x"]);
    assert!(matches!(&r, Err(DirtyError::NotKnown { net }) if net == "x"));
    assert_eq!(r.unwrap_err().message(), "cugr: dirty net x is not one the global router holds \u{2014} not modelled");
    assert_eq!(trace.len(), 1);
    let mut n = dirty("x", true);
    n.is_held = false;
    let mut nets = vec![n];
    let (r, trace) = follow(&mut nets, &["x"]);
    assert!(matches!(r, Err(DirtyError::NotHeld { net }) if net == "x"));
    assert_eq!((trace.len(), nets[0].pins[0].on_grid), (1, (1, 2)), "recorded, and its pins replaced");
    let mut n = dirty("x", true);
    n.is_in_block = false;
    assert!(matches!(follow(&mut vec![n], &["x"]).0, Err(DirtyError::NotInBlock)));
    let mut n = dirty("x", true);
    n.is_routable = false;
    assert!(matches!(follow(&mut vec![n], &["x"]).0, Err(DirtyError::NotRoutable { net }) if net == "x"));
    let mut n = dirty("x", false);
    n.is_held = false;
    assert_eq!(follow(&mut vec![n], &["x"]).0.unwrap(), vec![false], "a net that keeps its route need not be held");
}

#[test]
fn a_clocked_liberty_design_is_not_followed() {
    let mut nets = vec![dirty("a", true)];
    let mut trace = Vec::new();
    assert!(matches!(update_dirty_routes_cugr(true, true, &mut nets, &routed(&[]), &mut trace), Err(DirtyError::Clocked)));
    assert!(trace.is_empty() && nets[0].fresh.is_some());
    assert_eq!(update_dirty_routes_cugr(true, false, &mut nets, &routed(&[]), &mut trace).unwrap(), vec![true]);
    assert_eq!(DirtyError::Clocked.message(), "cugr: an incremental route of a clocked liberty design reads the timer's slacks \u{2014} not modelled");
}

#[test]
fn a_new_route_replaces_the_old_and_an_empty_one_removes_it() {
    let mut routes = routed(&["a", "b", "c"]);
    let mut n = dirty("b", false);
    n.pins.push(pin((3, 3), 9));
    let access = vec![PinAccess { layer: Some(4), on_grid: (5, 6) }, PinAccess { layer: Some(4), on_grid: (7, 8) }];
    let left = replace_route(&mut n, vec![GSegment::new(7, 7, 3, 9, 7, 3)], &access, true, 6, &mut routes);
    assert_eq!(routes.0[routes.find("b").unwrap()].1, vec![GSegment::new(7, 7, 3, 9, 7, 3)]);
    assert_eq!(left.pins, vec![(5, 6, 4), (7, 8, 9)], "a pin above the highest layer keeps its layer");
    assert_eq!((left.name.as_str(), left.made), ("b", true));
    assert_eq!(n.pins[0].on_grid, (5, 6));
    let nowhere = vec![PinAccess { layer: None, on_grid: (0, 0) }, PinAccess { layer: None, on_grid: (0, 0) }];
    let left = replace_route(&mut n, Vec::new(), &nowhere, false, 6, &mut routes);
    assert!(routes.find("b").is_none() && routes.find("a").is_some() && routes.find("c").is_some());
    assert_eq!(left.pins, vec![(5, 6, 4), (7, 8, 9)], "a pin that is not reached stays");
}

#[test]
fn a_failed_reroute_is_cleared_and_every_route_saved() {
    let nets = vec![dirty("a", false), dirty("b", false), dirty("c", false), dirty("d", false)];
    let old = |name: &str| NetRoute { name: name.into(), segments: Vec::new(), pins: Vec::new(), is_local: false };
    let mut kept = vec![old("x"), old("d"), old("b"), old("d")];
    let r = save_dirty_routes(&nets, &vec![false, true, false, true], &routed(&["a", "d"]), &mut kept);
    assert_eq!(r.saved.iter().map(|n| n.name.as_str()).collect::<Vec<_>>(), vec!["a", "d"]);
    assert_eq!(r.cleared, vec![1]);
    assert_eq!((r.saved[0].segments.len(), r.saved[0].pins.clone(), r.saved[0].is_local), (1, vec![(1, 1, 2)], true));
    assert_eq!(kept.iter().map(|n| (n.segments.len(), n.pins.len())).collect::<Vec<_>>(), vec![(0, 0), (1, 1), (0, 1), (0, 0)], "the first of each name is renewed");
}

#[test]
fn unset_layers_take_the_global_adjustment() {
    let layers: Vec<AdjustableLayer> = [(1, false), (2, true), (3, false)].iter().map(|&(routing_level, has_adjustment)| AdjustableLayer { routing_level, has_adjustment }).collect();
    assert_eq!(layers_to_adjust(&layers, 1, 3), Some(vec![0, 2]));
    assert_eq!(layers_to_adjust(&layers, 2, 2), Some(vec![]));
    assert_eq!(layers_to_adjust(&layers, 2, 4), None);
}

#[test]
fn runs_are_admitted_or_refused() {
    assert_eq!(admit_run(false, true, true), Ok(()));
    assert_eq!(admit_run(false, false, false), Ok(()));
    assert_eq!(admit_run(true, true, false), Err(RouteRefusal::AccessPoints));
    assert_eq!(admit_run(false, true, false), Err(RouteRefusal::Timed));
    assert_eq!((sorts_by_capture(true, true, Some(2), 1), sorts_by_capture(true, false, None, 1), sorts_by_capture(false, true, None, 0)), (Ok(true), Ok(false), Ok(false)));
    assert_eq!(sorts_by_capture(true, true, Some(1), 1).unwrap_err().message(), "cugr: no captured slacks for CUGR call 1 \u{2014} not modelled");
    assert!(sorts_by_capture(true, true, None, 0).is_err());
    assert_eq!(RouteRefusal::AccessPoints.message(), "cugr: pin access points in the database \u{2014} findODBAccessPoints is not modelled");
    assert_eq!(RouteRefusal::Timed.message(), "cugr: a clock with a liberty library \u{2014} the critical-net slacks are not modelled");
}

#[test]
fn refused_takeovers_are_told() {
    let n = || "n".to_string();
    assert_eq!(AdoptError::AccessPoints.message(), "cugr: pin access points in the database \u{2014} ensurePinsPositions' access-point branch is not modelled");
    assert_eq!(AdoptError::Timed.message(), "cugr: a clock with a liberty library \u{2014} the critical-net slacks are not modelled");
    assert_eq!(AdoptError::Unknown { net: n() }.message(), "[ERROR GRT-0127] net_id for db_net n not found \u{2014} not modelled");
    assert_eq!(AdoptError::Detailed { net: n() }.message(), "cugr: net n is detail-routed \u{2014} makeRouteFromWires is not modelled");
    assert_eq!(AdoptError::NotHeld { net: n() }.message(), "cugr: net n has a route but CUGR does not hold it \u{2014} restoreNetRoute's re-admission is not modelled");
    let error = StageError::Commit(CommitError::WrongWayWire { layer: 2 });
    assert_eq!(format!("{error:?}"), error.message());
    assert_eq!(AdoptError::Restoring { net: n(), error }.message(), "cugr: restoring net n: Commit(WrongWayWire { layer: 2 })");
    let error = StageError::Pattern(PatternError::NoAccessPoint { net: n(), pin: 4 });
    assert_eq!(format!("{error:?}"), error.message());
}
