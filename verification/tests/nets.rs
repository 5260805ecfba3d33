use vyges_grt::adjust::{BlockedMap, EdgeState, RouterEdges};
use vyges_grt::antenna_check::{
    build_layer_maps, check_gates, find_nodes_with_intersection, layer_groups, layer_regions, more_diodes, pin_violation_count, polygon_region, save_gates, GateFacts,
    GateOutcome, PinFacts, Region, Shape, TechLayer, TechLayers,
};
use vyges_grt::cli::{classify, exit_status, glob, nets_to_route, write_guides, Fail, GuideBox, StoredGuides};
use vyges_grt::clk_network::{find_clk_nets, ClkNetlist, ClkNetworkError};
use vyges_grt::cugr::route::NetPin;
use vyges_grt::finalize::Graph3d;
use vyges_grt::findrouting::{find_routing, Routes};
use vyges_grt::full3d::{Edge3D, Point3D, RouteType};
use vyges_grt::global_route::nets::{
    add_resources_for_pin_access, all_layer_edge_costs, captured_slacks, compute_hpwl, find_name, is_via_only, kept_edge_costs, net_ids, net_range_edge_costs,
    refuses_resistance, select_nets, setup_nets, slack_source, steiner_alpha, AlphaRules, BlockTerm, FacedEdge, FoundNet, FoundNetError, HpwlError, InstanceTerm, NetNotFound, NetSlack,
    ReceivedNet, RouterNet, SlackSource,
};
use vyges_grt::capacity::LayerError;
use vyges_grt::global_route::pins::{discover_net_pins, instance_box, master_class, name_terminal, pin_level_limit, FoundPin, MasterClass, PortFacts};
use vyges_grt::global_route::tech::{TechError, TwoWidths};
use vyges_grt::global_route::results::{
    are_same_nets, grid_pins, guide_is_congested, init_fast_route_incr, merge_results, net_id, net_routes, restore_for_repair, snapshot_edge, update_dirty_nets, GuidedNet,
    Release, RestoreError,
};
use vyges_grt::global_route::state_text::{router_state_text, PlaneEdgeText, RouterState};
use vyges_grt::global_route::usage::{caps_3d, charge_edges, plane_grids, taken_edges, wire_edges, wrap, LayerEdge, TileSpan};
use vyges_grt::global_route::{finish_run, prepare_run, remaining_nets, rerouted_nets, update_dirty_routes_fast_route, FinishLevels, OverflowLeft};
use vyges_grt::graph2d::CellSet;
use vyges_grt::{GSegment, Rect};

fn net_pin(x: i32, y: i32, layer: i32) -> NetPin {
    NetPin { name: "p".into(), is_port: false, on_grid: (x, y), connection_layer: layer }
}

fn net(name: &str, is_local: bool, costs: Option<Vec<i8>>, pins: Vec<NetPin>) -> RouterNet {
    RouterNet {
        name: name.into(),
        pins: vec![(0, 0, 1), (1, 0, 2)],
        root: 0,
        is_clock: false,
        is_local,
        min_layer: 2,
        max_layer: 3,
        edge_cost: 4,
        has_ndr: costs.is_some(),
        layer_edge_cost: costs,
        net_pins: pins,
        pin_is_driver: vec![true, false],
        term_count: 2,
    }
}

#[test]
fn costs_by_layer() {
    let (plain, ruled) = (net("a", false, None, vec![]), net("b", false, Some(vec![1, 2, 3, 4]), vec![]));
    assert_eq!((net_range_edge_costs(&plain), net_range_edge_costs(&ruled)), (vec![1, 1], vec![2, 3]));
    assert_eq!((all_layer_edge_costs(&plain, 3), all_layer_edge_costs(&ruled, 3)), (vec![1, 1, 1], vec![1, 2, 3]));
    assert_eq!((kept_edge_costs(&ruled, 4, true), kept_edge_costs(&ruled, 4, false)), (vec![1, 1, 1, 1], vec![1, 2, 3, 4]));
    assert_eq!(refuses_resistance(&vec![ruled], true).unwrap_err(), "resistance-aware routing of a net with an NDR: the per-layer NDR width is not wired");
    assert!(refuses_resistance(&vec![plain], true).is_ok());
    assert!(refuses_resistance(&vec![net("b", false, Some(vec![1, 2, 3, 4]), vec![])], false).is_ok());
}

#[test]
fn nets_are_selected_by_name() {
    let names: Vec<String> = ["a", "b", "c"].iter().map(|s| s.to_string()).collect();
    assert_eq!(find_name(&names, "b"), Some(1));
    assert_eq!(select_nets(&names, None).unwrap(), vec![0, 1, 2]);
    assert_eq!(select_nets(&names, Some(&vec!["c".to_string(), "a".to_string()])).unwrap(), vec![2, 0]);
    assert_eq!(select_nets(&names, Some(&vec!["a".to_string(), "x".to_string()])).unwrap_err().net, "x");
    assert_eq!(net_ids(&vec![net("a", true, None, vec![]), net("b", false, None, vec![])]), vec![1]);
}

fn found(name: &str, pins: Vec<NetPin>, is_made: bool, consumption: u32) -> FoundNet {
    FoundNet { name: name.into(), pins, has_wire: false, wires: 0, vias: 0, is_made, consumption }
}

#[test]
fn nets_are_received_or_refused() {
    let far = vec![net_pin(0, 0, 1), net_pin(5, 0, 1)];
    let near = vec![net_pin(3, 3, 1), net_pin(3, 3, 2)];
    let v = vec![found("a", far, true, 2), found("b", vec![], false, 999), found("c", near, true, 1)];
    assert_eq!(setup_nets(&v).unwrap(), vec![ReceivedNet { place: 0, is_local: false, edge_cost: 2 }, ReceivedNet { place: 2, is_local: true, edge_cost: 1 }]);
    assert!(matches!(setup_nets(&vec![found("d", vec![], true, 128)]), Err(FoundNetError::Consumption { tracks: 128 })));
    let mut vias = found("e", vec![], true, 1);
    (vias.has_wire, vias.vias) = (true, 3);
    assert!(matches!(setup_nets(&vec![vias]), Err(FoundNetError::ViaOnly { net }) if net == "e"));
    assert!(is_via_only(true, 0, 1) && !is_via_only(true, 1, 1) && !is_via_only(false, 0, 1) && !is_via_only(true, 0, 0));
}

#[test]
fn weights_of_steiner_trees() {
    let rules = AlphaRules { min_hpwl: Some((100, 'h')), min_fanout: Some((3, 'f')) };
    assert_eq!(steiner_alpha(&rules, Some('o'), 'c', 500, 9), 'o');
    assert_eq!(steiner_alpha(&rules, None, 'c', 100, 2), 'h');
    assert_eq!(steiner_alpha(&rules, None, 'c', 99, 9), 'c', "the wirelength rule hides the fanout's");
    let fan = AlphaRules { min_hpwl: None, min_fanout: Some((3, 'f')) };
    assert_eq!((steiner_alpha(&fan, None, 'c', 0, 4), steiner_alpha(&fan, None, 'c', 0, 3)), ('f', 'c'));
}

#[test]
fn half_perimeters() {
    let it = |at: Option<(i32, i32)>, is_placed: bool| InstanceTerm { inst: "u".into(), name: "u/A".into(), is_placed, at };
    let bt = |at: Option<(i32, i32)>| BlockTerm { name: "in".into(), at };
    assert_eq!(compute_hpwl(&vec![it(Some((0, 5)), true), it(Some((10, 0)), true)], &vec![bt(Some((4, 9)))]).unwrap(), 19);
    assert_eq!(compute_hpwl(&vec![], &vec![]).unwrap(), 0);
    assert!(matches!(compute_hpwl(&vec![it(None, false)], &vec![]), Err(HpwlError::Unplaced { inst }) if inst == "u"));
    assert!(matches!(compute_hpwl(&vec![it(None, true)], &vec![]), Err(HpwlError::NoShape { term }) if term == "u/A"));
    assert!(matches!(compute_hpwl(&vec![], &vec![bt(None)]), Err(HpwlError::NoLocation { term }) if term == "in"));
}

#[test]
fn slacks_are_found() {
    assert_eq!(slack_source(false, false, false), SlackSource::Absent);
    assert_eq!(slack_source(true, false, false), SlackSource::Unconstrained);
    assert_eq!(slack_source(true, true, true), SlackSource::Captured);
    let v = vec![NetSlack { net: "a".to_string(), slack: -5 }];
    assert_eq!(captured_slacks(&vec![net("a", false, None, vec![]), net("b", true, None, vec![])], &v, false, 0).unwrap(), vec![-5, 0]);
    let lost = |is_update: bool| captured_slacks(&vec![net("b", false, None, vec![])], &v, is_update, 0).unwrap_err().message();
    assert_eq!(lost(false), "net b: no captured slack \u{2014} not bound");
    assert_eq!(lost(true), "net b: no captured updateSlacks slack \u{2014} not bound");
    assert!(matches!(classify(lost(true)), Fail::Refused(_)));
}

fn edges() -> RouterEdges {
    let e = |cap: u16| EdgeState { cap, red: 1, real_cap: 0 };
    RouterEdges {
        die: Rect::new(0, 0, 200, 200),
        tile_size: 100,
        x_grid: 2,
        y_grid: 2,
        num_layers: 1,
        track_pitches: vec![20],
        h3: vec![e(5); 4],
        v3: vec![e(6); 4],
        h2: vec![e(7), e(8)],
        v2: vec![e(9), e(10)],
        horizontal_blocked: BlockedMap::new(),
        vertical_blocked: BlockedMap::new(),
        verbose: false,
        log: Vec::new(),
    }
}

#[test]
fn the_router_is_given_its_plane() {
    let mut e = edges();
    let g = plane_grids(&e);
    assert_eq!((g.cap_h[0], g.cap_h[2], g.cap_v[0], g.cap_v[1], g.red_h[0]), (7, 8, 9, 10, 1));
    let c = caps_3d(&e);
    assert_eq!((c.x_grid, c.layers[0].h.clone(), c.layers[0].v.clone()), (2, vec![5; 4], vec![6; 4]));
    let r = prepare_run(&e, &vec![net("a", true, None, vec![]), net("b", false, None, vec![])]);
    assert_eq!(r.net_ids, vec![1]);
    assert_eq!((r.nets[1].pins_x.clone(), r.nets[1].min_layer, r.nets[1].max_layer, r.nets[1].edge_cost), (vec![0, 1], 1, 2, 4));
    assert_eq!((r.layers[1].pin_layers.clone(), r.range_costs[1].clone()), (vec![0, 1], vec![1, 1]));
    add_resources_for_pin_access(&mut e, &vec![FacedEdge { x1: 0, y1: 0, x2: 1, y2: 0, layer: 1 }]);
    assert_eq!((e.h3[0].cap, e.h3[1].cap), (6, 5));
}

// Charging edges and taking them back leaves what was there.
#[test]
fn edges_are_charged_and_given_back() {
    let spans = vec![TileSpan { x0: 0, y0: 1, x1: 2, y1: 1, layer: 0 }, TileSpan { x0: 1, y0: 0, x1: 1, y1: 1, layer: 1 }, TileSpan { x0: 1, y0: 1, x1: 1, y1: 1, layer: 0 }];
    let h = |x: i32, y: i32| LayerEdge { horizontal: true, layer: 0, x, y };
    let v = |x: i32, y: i32| LayerEdge { horizontal: false, layer: 1, x, y };
    let list = wire_edges(&spans);
    assert_eq!(list, vec![h(0, 1), h(1, 1), v(1, 0)]);
    let p = |x: i16, y: i16, layer: i16| Point3D { x, y, layer };
    let path = Edge3D { len: 3, route_type: RouteType::MazeRoute, routelen: 3, grids: vec![p(2, 1, 0), p(1, 1, 0), p(1, 1, 1), p(1, 0, 1)] };
    assert_eq!(taken_edges(&vec![path]), vec![h(1, 1), v(1, 0)]);
    let g = || vec![vec![0u16; 9]; 2];
    let mut space = Graph3d { x_grid: 3, num_layers: 2, h_cap: g(), v_cap: g(), h_usage: g(), v_usage: g() };
    charge_edges(&mut space, 3, &list, &vec![2, 3], 1);
    assert_eq!((space.h_usage[0][3], space.h_usage[0][4], space.v_usage[1][1]), (2, 2, 3));
    charge_edges(&mut space, 3, &list, &vec![2, 3], -1);
    assert!(space.h_usage.iter().chain(&space.v_usage).flatten().all(|&u| u == 0));
    charge_edges(&mut space, 3, &list, &vec![2, 3], -1);
    assert_eq!(space.h_usage[0][3], 65534);
    assert_eq!((wrap(-1), wrap(65537)), (65535, 1));
}

fn seg(x0: i32, x1: i32) -> GSegment {
    GSegment::new(x0, 0, 2, x1, 0, 2)
}

#[test]
fn routes_are_released_and_merged() {
    let pins = || vec![net_pin(0, 0, 2), net_pin(9, 0, 2)];
    let run = vec![net("a", false, None, pins()), net("b", false, None, pins()), net("c", true, None, pins())];
    let moved = || vec![net_pin(0, 0, 2), net_pin(5, 0, 2)];
    let now = vec![net("a", false, None, moved()), net("b", false, None, pins()), net("c", true, None, moved())];
    assert!(are_same_nets(&now, &run) && !are_same_nets(&now, &vec![]));
    let dirty: Vec<String> = ["c", "b", "x", "a"].iter().map(|s| s.to_string()).collect();
    let r = update_dirty_nets(&dirty, &run, &now, &vec![true, false, false]);
    assert_eq!(r, vec![Release { id: 2, by_segments: false }, Release { id: 0, by_segments: true }]);
    assert_eq!(init_fast_route_incr(&r, &now), vec![0], "a local net is not routed");
    assert_eq!(net_id(&now, "b"), Some(1));
    assert_eq!(grid_pins(&now[0]), vec![(0, 0, 2), (5, 0, 2)]);
    let mut routes = Routes::new();
    let i = routes.entry("a");
    routes.extend(i, vec![seg(0, 9)]);
    let mut kept = net_routes(&vec!["b".to_string(), "a".to_string(), "zz".to_string()], &run, &routes);
    assert_eq!(kept.iter().map(|k| (k.name.as_str(), k.segments.len())).collect::<Vec<_>>(), vec![("b", 0), ("a", 1)]);
    let mut again = Routes::new();
    let i = again.entry("a");
    again.extend(i, vec![seg(0, 5)]);
    merge_results(&mut kept, &again, &now);
    assert_eq!((kept[1].segments.clone(), kept[1].pins.clone()), (vec![seg(0, 5)], vec![(0, 0, 2), (5, 0, 2)]));
    assert!(guide_is_congested(1, false) && !guide_is_congested(1, true) && !guide_is_congested(0, false));
    let e = snapshot_edge(1, 2, 3, 1, &vec![(0, 0), (1, 0), (2, 0)]);
    assert_eq!((e.n1, e.n2, e.len, e.routelen, e.grids), (1, 2, 3, 1, vec![(0, 0), (1, 0)]));
}

#[test]
fn a_run_is_finished() {
    let nets = vec![net("a", false, Some(vec![2, 2, 2]), vec![net_pin(0, 0, 2), net_pin(9, 0, 2)]), net("b", true, None, vec![net_pin(3, 3, 1)])];
    let mut routes = Routes::new();
    let i = routes.entry("a");
    routes.extend(i, vec![seg(0, 5), seg(5, 9)]);
    let levels = FinishLevels { min: 1, max: 9, block_min: 1, block_max: 9 };
    let order = vec!["b".to_string(), "a".to_string()];
    let r = finish_run(&mut routes, &nets, &remaining_nets(&nets), &order, &vec![true, false], 3, levels, 0, false).unwrap();
    assert_eq!(r.net_routes.iter().map(|n| n.segments.len()).collect::<Vec<_>>(), vec![1, 1]);
    assert_eq!(r.net_routes[1].segments, vec![seg(0, 9)]);
    assert_eq!((r.guide_is_congested, r.edge_cost, r.layer_edge_cost), (false, vec![1, 4], vec![vec![1, 1, 1], vec![1, 1, 1]]));
    let lost = vec![net("z", false, None, vec![net_pin(0, 0, 2), net_pin(9, 0, 2)])];
    assert_eq!(finish_run(&mut Routes::new(), &lost, &remaining_nets(&lost), &order, &vec![false], 3, levels, 0, false).unwrap_err().net, "z");
}

#[test]
fn guides_are_restored_or_refused() {
    let g = |name: &str| GuidedNet { name: name.into(), has_guides: true, has_congested_guide: false, is_known: true, uncovered: 0, is_detailed: false, has_ndr: false };
    let mut bare = g("b");
    bare.has_guides = false;
    assert_eq!(restore_for_repair(&vec![g("a"), bare, g("c")]).unwrap(), vec![0, 2]);
    let (mut cong, mut lost, mut open, mut wired, mut ruled) = (g("e"), g("z"), g("d"), g("f"), g("h"));
    cong.has_congested_guide = true;
    lost.is_known = false;
    open.uncovered = 2;
    wired.is_detailed = true;
    ruled.has_ndr = true;
    assert!(matches!(restore_for_repair(&vec![ruled, g("a")]), Err(RestoreError::OwnRule { net }) if net == "h"));
    assert!(matches!(restore_for_repair(&vec![wired]), Err(RestoreError::Detailed { net }) if net == "f"));
    assert!(matches!(restore_for_repair(&vec![lost, open]), Err(RestoreError::Uncovered { net, pins: 2 }) if net == "d"), "by name");
    let mut lost = g("z");
    lost.is_known = false;
    assert!(matches!(restore_for_repair(&vec![lost]), Err(RestoreError::NotKnown { net }) if net == "z"));
    let mut lost = g("a");
    lost.is_known = false;
    assert!(matches!(restore_for_repair(&vec![lost, cong]), Err(RestoreError::Congested { net }) if net == "e"), "congestion comes first");
}

#[test]
fn the_state_is_written() {
    let one = |v: u16| vec![vec![v]];
    let edge = || vec![EdgeState { cap: 0, red: 4, real_cap: 0 }];
    let mut used = CellSet::new();
    used.insert(0, 0);
    let plane = PlaneEdgeText { x: 0, y: 0, cap: 3, usage: "1".into(), red: 2, estimate: "0.5".into(), last: "0".into(), congestion: "7".into() };
    let a = RouterState {
        rows: 1,
        plane_h: vec![plane],
        plane_v: vec![],
        used_h: used,
        used_v: CellSet::new(),
        space: Graph3d { x_grid: 1, num_layers: 1, h_cap: one(5), v_cap: one(6), h_usage: one(1), v_usage: one(2) },
        edges_h: edge(),
        edges_v: edge(),
        net_ids: vec![0],
        nets: vec![net("n", false, None, vec![])],
        layer_edge_cost: vec![vec![1, 1]],
    };
    assert_eq!(
        router_state_text("t", &a),
        "VYGI|t|grid|1|1|1\nVYGI|t|h|0,0|cap=3|usage=1|red=2|est=0.5|last=0|cong=7\nVYGI|t|usedh|0,0;\nVYGI|t|usedv|\nVYGI|t|h3|0|0,0|cap=5|usage=1|red=4\n\
         VYGI|t|v3|0|0,0|cap=6|usage=2|red=4\nVYGI|t|net|0|n|drv=0|min=1|max=2|cost=4|lcost=1,1,|clock=0|pins=0,0,0;1,0,1;\n"
    );
}

fn clocks() -> ClkNetlist {
    ClkNetlist {
        nets: vec![vec![(0, true), (1, false)], vec![(2, true), (3, false)], vec![(4, true)]],
        arcs: vec![vec![], vec![2], vec![], vec![], vec![], vec![]],
        inferred: vec![false; 6],
        sources: vec![0],
    }
}

// A graph whose pins can be ranked has no cycle.
#[test]
fn clocks_reach_through_buffers() {
    assert_eq!(find_clk_nets(&clocks()), Ok(vec![0, 1]));
    let mut g = clocks();
    g.sources = vec![4];
    assert_eq!(find_clk_nets(&g), Ok(vec![2]));
    let mut g = clocks();
    g.nets[2] = vec![(4, true); 10];
    assert_eq!(find_clk_nets(&g), Err(ClkNetworkError::TooManyDrivers { net: 2, drivers: 10 }));
    let mut g = clocks();
    g.sources = vec![0, 5];
    assert_eq!(find_clk_nets(&g), Err(ClkNetworkError::UnconnectedSource { pin: 5 }));
    let mut g = clocks();
    g.inferred[1] = true;
    assert_eq!(find_clk_nets(&g), Err(ClkNetworkError::InferredLatch { pin: 1 }));
    let mut g = clocks();
    g.arcs[3] = vec![2];
    assert_eq!(find_clk_nets(&g), Err(ClkNetworkError::Loop { pin: 2 }), "the way comes back to it from 3");
}

// Pin 0 drives 2 and then 1; the loads come before the arcs, and the check for loops starts at the lowest pin.
#[test]
fn the_first_pin_met_is_named() {
    let mut g = ClkNetlist {
        nets: vec![vec![(0, true), (2, false), (1, false)]],
        arcs: vec![vec![3], vec![4], vec![5], vec![], vec![1], vec![2]],
        inferred: vec![false, true, true, false, false, false],
        sources: vec![0],
    };
    assert_eq!(find_clk_nets(&g), Err(ClkNetworkError::InferredLatch { pin: 2 }), "2 is met before 1");
    g.inferred = vec![false; 6];
    assert_eq!(find_clk_nets(&g), Err(ClkNetworkError::Loop { pin: 2 }), "from 0 the way goes to 3, and then to 2 and 5");
    g.nets[0] = vec![(0, true), (1, false), (2, false)];
    assert_eq!(find_clk_nets(&g), Err(ClkNetworkError::Loop { pin: 1 }));
}

fn tech() -> TechLayers {
    let l = |routing_level: i32, lower: Option<usize>, upper: Option<usize>| TechLayer { routing_level, lower, upper };
    TechLayers(vec![l(1, None, Some(1)), l(0, Some(0), Some(2)), l(2, Some(1), None)])
}

fn area(r: &Region) -> i64 {
    r.rects().iter().map(|b| i64::from(b.2 - b.0) * i64::from(b.3 - b.1)).sum()
}

fn square(x: i32, y: i32, side: i32) -> Vec<(i32, i32)> {
    vec![(x, y), (x + side, y), (x + side, y + side), (x, y + side)]
}

#[test]
fn pins_cut_the_metal() {
    assert_eq!(area(&Region::new(&[(0, 0, 10, 10), (5, 0, 15, 10)], &[(4, 0, 6, 10)])), 130);
    assert_eq!(area(&polygon_region(&square(0, 0, 10))), 100);
    let shapes = [Shape::Segment { level: 1, rect: Rect::new(0, 0, 10, 2) }, Shape::Via { boxes: vec![(1, Rect::new(0, 0, 2, 2)), (2, Rect::new(0, 0, 3, 3))] }];
    let r = layer_regions(&shapes, &[(0, (4, 0, 6, 2))], &tech()).unwrap();
    assert_eq!((area(&r[0]), area(&r[1]), area(&r[2])), (16, 4, 9));
    let bad = [Shape::Segment { level: 7, rect: Rect::new(0, 0, 10, 2) }];
    assert_eq!(layer_regions(&bad, &[], &tech()).unwrap_err(), "no routing level 7");
    assert_eq!((tech().find_routing_layer(2), tech().find_routing_layer(3)), (Some(2), None));
    let near = [polygon_region(&square(10, 0, 5)), polygon_region(&square(11, 0, 5)), polygon_region(&square(0, 0, 1))];
    assert_eq!(find_nodes_with_intersection(&near, &polygon_region(&square(0, 0, 10))), vec![0, 2], "one unit away counts, two do not");
}

// Pieces of metal joined by a pin are one group, and links join pieces.
#[test]
fn gates_reach_up_through_vias() {
    let polygons = vec![vec![square(0, 0, 10), square(20, 0, 10)], vec![square(4, 4, 2)], vec![square(0, 0, 10)]];
    let mut nodes = build_layer_maps(&polygons, &tech());
    assert_eq!((nodes[1][0].low_adj.clone(), nodes[2][0].low_adj.clone(), nodes[2][0].id), (vec![0], vec![0], 3));
    assert!(nodes[1][0].is_via && !nodes[0][0].is_via);
    let pins = [PinFacts { name: "  u/A (INV)".into(), boxes: vec![(0, (9, 0, 21, 2))] }, PinFacts { name: "  v/A (INV)".into(), boxes: vec![(0, (28, 0, 29, 2))] }];
    save_gates(&mut nodes, &pins, &tech());
    assert_eq!((nodes[0][0].gates.clone(), nodes[0][1].gates.clone()), (vec![0], vec![0, 1]), "on its own layer a pin joins nothing yet");
    assert_eq!((nodes[1][0].gates.clone(), nodes[2][0].gates.clone()), (vec![0, 1], vec![0, 1]), "above it, it has joined its pieces");
    let gates = [GateFacts { id: 1, is_valid: true, is_antenna_cell: false }, GateFacts { id: 2, is_valid: false, is_antenna_cell: false }];
    let g = layer_groups(&nodes[0], &vec![0, 1], &gates);
    assert_eq!(g.group[0], g.group[1]);
    assert!(g.counts[g.group[0]]);
    assert_eq!(g.nodes, vec![vec![0, 1], vec![1]]);
}

// A gate gets as many diodes in all as its worst layer needs.
#[test]
fn diodes_are_counted_once() {
    let gates = [GateFacts { id: 1, is_valid: true, is_antenna_cell: false }, GateFacts { id: 2, is_valid: true, is_antenna_cell: true }];
    let o = |routing_level: i32, violated: bool, diodes: i32, cumulative: bool| GateOutcome { gate: 0, routing_level, violated, diodes, cumulative, group: vec![0, 1] };
    let v = check_gates(&[o(1, true, 2, false), o(2, true, 3, true), o(3, true, 1, false)], &gates);
    let seen: Vec<_> = v.iter().map(|x| (x.routing_level, x.gates.clone(), x.diode_count_per_gate, x.excess_of)).collect();
    assert_eq!(seen, vec![(1, vec![0], 2, Some(0)), (2, vec![0], 1, Some(1)), (2, vec![0], 1, None), (3, vec![0], 0, Some(2))]);
    assert!(more_diodes(10, true) && !more_diodes(11, true) && !more_diodes(0, false));
    assert_eq!(pin_violation_count(&[vec![false, true], vec![false], vec![]]), 1);
}

// A star matches everything, and a plain pattern itself alone.
#[test]
fn patterns_name_nets() {
    assert!(glob("*", "") && glob("*", "any") && glob("abc", "abc") && !glob("abc", "abd") && !glob("abc", "ab"));
    assert!(glob("?", "\u{e9}") && glob("n?t*", "n\u{e9}t") && !glob("??", "\u{e9}"), "one character, however many bytes");
    assert!(glob("a*c", "abbc") && glob("a?c", "abc") && !glob("a?c", "ac") && glob("**b", "b"));
    let names: Vec<String> = ["clk", "n1", "n2"].iter().map(|s| s.to_string()).collect();
    assert_eq!(nets_to_route(&vec!["n*".to_string(), "n1".to_string()], &names), vec![1, 2, 1]);
}

#[test]
fn failures_have_their_status() {
    let f = classify("pin on grid: not wired here".to_string());
    assert!(matches!(&f, Fail::Refused(m) if m == "pin on grid: not wired here"));
    assert_eq!(exit_status(&f), 1);
    assert_eq!(exit_status(&classify("the engine is not bound".to_string())), 1);
    let f = classify("no such file".to_string());
    assert!(matches!(&f, Fail::Error(_)));
    assert_eq!(exit_status(&f), 2);
}

#[test]
fn guide_files_are_sorted_by_net() {
    let g = |x0: i32, layer: &str| GuideBox { x0, y0: 0, x1: 10, y1: 20, layer: layer.into() };
    let store = vec![
        StoredGuides { net: "b".into(), boxes: vec![g(1, "m1")] },
        StoredGuides { net: "empty".into(), boxes: vec![] },
        StoredGuides { net: "a".into(), boxes: vec![g(-2, "m2"), g(3, "m1")] },
    ];
    assert_eq!(write_guides(&store), "a\n(\n-2 0 10 20 m2\n3 0 10 20 m1\n)\nb\n(\n1 0 10 20 m1\n)\n");
}

#[test]
fn dirty_nets_are_routed_again() {
    let nets = vec![net("a", false, None, vec![net_pin(0, 0, 2), net_pin(9, 0, 2)]), net("b", true, None, vec![net_pin(3, 3, 1)])];
    let mut routes = Routes::new();
    let i = routes.entry("a");
    routes.extend(i, vec![seg(0, 5), seg(5, 9)]);
    let dirty = rerouted_nets(&nets, &vec![1]);
    assert_eq!((dirty.len(), dirty[0].name.as_str(), dirty[0].pins.clone()), (1, "b", vec![(3, 3, 1)]));
    assert!(find_routing(&mut routes, &dirty, &remaining_nets(&nets), 1, 9, 9, 1).is_ok());
    assert_eq!(routes.0[routes.find("a").unwrap()].1, vec![seg(0, 9)], "every route is merged");
    assert_eq!(routes.0[routes.find("b").unwrap()].1.len(), 1);
    assert_eq!(update_dirty_routes_fast_route(&nets, &vec![1, 0], 0, false), Ok(vec!["b".to_string(), "a".to_string()]));
    assert_eq!(update_dirty_routes_fast_route(&nets, &vec![0], 3, false), Err(OverflowLeft));
    assert!(update_dirty_routes_fast_route(&nets, &vec![0], 3, true).is_ok());
    assert_eq!(update_dirty_routes_fast_route(&nets, &vec![], 3, false), Ok(vec![]));
}

#[test]
fn errors_are_told() {
    let n = || "n".to_string();
    assert_eq!(NetNotFound { net: n() }.message(), "net n not found");
    assert_eq!(FoundNetError::ViaOnly { net: n() }.message(), "net n: a via-only wire \u{2014} hasStackedVias' via points are not wired");
    assert_eq!(FoundNetError::Consumption { tracks: 128 }.message(), "[ERROR GRT-0272] NDR consumption 128 exceeds 127 and is unsupported");
    assert!(matches!(classify(FoundNetError::ViaOnly { net: n() }.message()), Fail::Refused(_)));
    assert!(matches!(classify(FoundNetError::Consumption { tracks: 128 }.message()), Fail::Error(_)));
    assert_eq!(HpwlError::Unplaced { inst: "u".into() }.message(), "STT-0004: connected to unplaced instance u");
    assert_eq!(HpwlError::NoShape { term: "u/A".into() }.message(), "u/A: no pin shape for getAvgXY \u{2014} not modelled");
    assert_eq!(HpwlError::NoLocation { term: "in".into() }.message(), "in: no pin location \u{2014} not modelled");
    assert_eq!(TechError::NoTracks.message(), "GRT-0701: the lowest routing layer has no track grid");
    assert_eq!(TechError::Layer(LayerError::NoDirection { layer: "m1".into() }).message(), "layer m1 does not have a valid direction");
    assert_eq!(TwoWidths { layer: "m1".into() }.message(), "layer m1: a TWOWIDTHS table \u{2014} its last entry is not bound");
    assert_eq!(RestoreError::Congested { net: n() }.message(), "net n: a congested guide \u{2014} restoring a congested routing is not modelled");
    assert_eq!(RestoreError::NotKnown { net: n() }.message(), "[ERROR GRT-0127] net_id for db_net n not found \u{2014} not modelled");
    assert_eq!(RestoreError::Uncovered { net: n(), pins: 3 }.message(), "net n: 3 pin(s) not covered by the restored guides \u{2014} ensurePinsPositions is not modelled");
    assert_eq!(RestoreError::Detailed { net: n() }.message(), "net n: detail-routed \u{2014} its usage from wires is not modelled");
    assert_eq!(RestoreError::OwnRule { net: n() }.message(), "net n: an NDR net restored from guides \u{2014} disableCongestedNDRNetsFromRoutes is not modelled");
    assert_eq!(OverflowLeft.message(), "the incremental re-route left overflow: its congestion loop is not modelled");
}

#[test]
fn pins_are_found_with_their_drivers() {
    assert_eq!((master_class(true, true, true), master_class(false, true, true)), (MasterClass::Pad, MasterClass::Block));
    assert_eq!((master_class(false, false, true), master_class(false, false, false)), (MasterClass::Cover, MasterClass::Core));
    assert_eq!((pin_level_limit("CLOCK", 5, 9), pin_level_limit("CLOCK", 0, 9), pin_level_limit("SIGNAL", 5, 9)), (5, 9, 9));
    let die = Rect::new(0, 0, 100, 100);
    assert_eq!((instance_box(&vec![1, 2, 3, 4], die), instance_box(&vec![], die)), (Rect::new(1, 2, 3, 4), die));
    assert_eq!(name_terminal("u1", "A"), "u1/A");
    let ios: Vec<String> = ["OUTPUT", "INPUT", "INOUT"].iter().map(|s| s.to_string()).collect();
    let ports = vec![PortFacts { io: "INPUT".into(), has_pin: true }, PortFacts { io: "INPUT".into(), has_pin: false }, PortFacts { io: "INOUT".into(), has_pin: true }];
    let pin = |is_port: bool, place: usize, drives: bool| FoundPin { is_port, place, drives };
    assert_eq!(discover_net_pins(&ios, &ports), vec![pin(false, 0, true), pin(false, 1, false), pin(false, 2, true), pin(true, 0, true), pin(true, 2, false)]);
}
