use vyges_grt::cugr::access::AccessPoint;
use vyges_grt::cugr::design::{BoxOnLayer, CugrNet, CugrPin, DesignFacts, LayerRange, TechLayerFacts, TechViaFacts};
use vyges_grt::cugr::geo::{BoxT, Interval, Point};
use vyges_grt::cugr::grid_graph::{view_check, Flags, ViewEdge};
use vyges_grt::cugr::grnet::{ApChoice, GrNet, GrPoint};
use vyges_grt::cugr::layers::MetalLayerFacts;
use vyges_grt::cugr::maze_route::{maze_tree, view_sum, MazeError, SparseGraph, SparseGrid};
use vyges_grt::cugr::route::{cugr_guides, WireCount};
use vyges_grt::cugr::steiner::{SteinerInput, SteinerNode, SteinerTree, TreeBranch};
use vyges_grt::cugr::trace::{
    access_record, branches_record, choice_records, congestion_record, congestion_view, design_record, gridlines_record, grid_record, grnet_record, init_record, input_record, list, net_records,
    dirty_record, maze_tree_record, numbered_list_record, obstacle_record, preferred_record, selected_record, sparse_record, steiner_nodes, steiner_record, tree_record,
    via_records,
};
use vyges_grt::cugr::tree::GrTree;
use vyges_grt::cugr::{init, Cugr};
use vyges_grt::findrouting::{RemainingNet, Routes};
use vyges_grt::GSegment;

fn layer(name: &str, level: i32, horizontal: bool) -> TechLayerFacts {
    TechLayerFacts {
        name: name.into(),
        is_routing: true,
        routing_level: level,
        upper_layer: "".into(),
        metal: Some(MetalLayerFacts {
            name: name.into(),
            routing_level: level,
            horizontal,
            width: 100,
            min_width: 100,
            spacing: 100,
            tracks: (200, 100, 30),
            area: 0,
            v55_widths_and_lengths: None,
            v55_table: None,
        }),
    }
}

/// Five by five gcells of 1000, the last of 1900; levels 2 and 3 are routed.
fn router() -> Cugr {
    let f = DesignFacts {
        dbu_per_micron: 1000,
        die: (0, 0, 5900, 5900),
        gcell_tile_size: 1000,
        layers: vec![layer("m1", 1, true), layer("m2", 2, false), layer("m3", 3, true)],
        vias: Vec::new(),
        nets: Vec::new(),
        instance_shapes: Vec::new(),
        design_obstructions: Vec::new(),
        min_layer_for_clock: 0,
        max_layer_for_clock: 0,
    };
    init(&f, &Vec::new(), 2, 3).unwrap()
}

fn net(tree: Option<GrTree>) -> GrNet {
    GrNet {
        index: 0,
        name: "n".into(),
        pin_access_points: vec![vec![GrPoint { layer: 0, p: Point::new(1, 4) }], vec![GrPoint { layer: 2, p: Point::new(4, 4) }]],
        bounding_box: BoxT::new(1, 4, 4, 4),
        driver_pin_index: -1,
        layer_range: LayerRange { min_layer: 1, max_layer: 2 },
        preferred_aps: vec![Some((Point::new(1, 4), Interval::new(0, 1))), None],
        routing_tree: tree,
        shape_ap_choices: Vec::new(),
        soft_ndr: false,
        adopted: false,
    }
}

fn tree() -> GrTree {
    let mut t = GrTree::new();
    let root = t.add(0, Point::new(1, 4));
    let up = t.add(2, Point::new(1, 4));
    let far = t.add(2, Point::new(4, 4));
    t.nodes[root].children.push(up);
    t.nodes[up].children.push(far);
    t
}

fn flags(planes: usize) -> Flags {
    vec![vec![vec![false; 5]; 5]; planes]
}

#[test]
fn intervals_of_a_design() {
    let c = router();
    assert_eq!(c.design.die_interval(0), Interval::new(0, 5900));
    assert_eq!(c.grid.range_search_gridlines(0, Interval::new(500, 2000)), Interval::new(1, 2));
    assert_eq!(BoxT::from_intervals(Interval::new(1, 4), Interval::new(2, 3)), BoxT::new(1, 2, 4, 3));
    let n = net(None);
    assert!(n.is_inside_layer_range(1) && n.is_inside_layer_range(2) && !n.is_inside_layer_range(0) && !n.is_inside_layer_range(3));
}

#[test]
fn congestion_by_direction() {
    let mut c = router();
    let mut over = flags(3);
    over[2][2][4] = true;
    over[0][0][4] = true;
    let view = c.grid.extract_congestion_view(&over);
    assert!(view[0][2][4] && !view[0][0][4], "the lowest layer is not routed");
    assert!(view_check(&view, Point::new(1, 4), Point::new(4, 4), 5, 5));
    assert!(view_check(&view, Point::new(4, 4), Point::new(1, 4), 5, 5));
    assert!(!view_check(&view, Point::new(3, 4), Point::new(4, 4), 5, 5));
    assert!(!view_check(&view, Point::new(2, 0), Point::new(2, 4), 5, 5));
    assert_eq!((c.grid.direction_layers(0), c.grid.direction_layers(1)), (vec![2], vec![1]));
    c.nets.push(net(Some(tree())));
    c.nets.push(net(None));
    assert_eq!(c.congested_nets(&over), vec![0]);
    assert!(c.congested_nets(&flags(3)).is_empty());
}

#[test]
fn a_tree_changes_the_edges_it_touches() {
    let c = router();
    let e = |direction: usize, x: i32, y: i32| ViewEdge { direction, x, y };
    // the vias leave the lowest layer and the vertical one, which has no edge above the last row
    assert_eq!(c.grid.changed_edges(&tree()), vec![e(0, 1, 4), e(0, 0, 4), e(1, 1, 3), e(0, 1, 4), e(0, 2, 4), e(0, 3, 4)]);
}

#[test]
fn pins_are_reached_at_their_gridlines() {
    let mut c = router();
    c.design.nets.push(CugrNet {
        index: 0,
        name: "n".into(),
        pins: vec![CugrPin { index: 0, name: "A".into(), is_port: false, shapes: vec![] }],
        layer_range: LayerRange { min_layer: 1, max_layer: 2 },
        facts_index: 0,
    });
    let n = net(None);
    assert_eq!(c.pin_access_point(&n, "A", false), Some((1000, 4000, 2)));
    assert_eq!(c.pin_access_point(&n, "A", true), None, "a port of that name is another pin");
    assert_eq!(c.pin_access_point(&n, "B", false), None);
}

#[test]
fn a_maze_route_joins_the_pins() {
    let at = |x: i32, y: i32| AccessPoint { p: Point::new(x, y), layers: Interval::new(1, 2) };
    let pins = vec![at(0, 0), at(2, 2)];
    let mut view = vec![vec![vec![1i64; 3]; 3]; 2];
    view[0][0][0] = 50;
    let grid = SparseGrid::new(1, 1, 0, 0);
    assert_eq!(view_sum(&view, 0, Point::new(0, 0), Point::new(2, 0), 3, 3), 51);
    let r = maze_tree(&pins, &view, &grid, 3, 3, 1, 0, i64::MAX).unwrap();
    let places: Vec<(i32, i32)> = r.tree.preorder().iter().map(|&k| (r.tree.nodes[k].p.x, r.tree.nodes[k].p.y)).collect();
    assert_eq!((places[0], *places.last().unwrap()), ((0, 0), (2, 2)));
    assert!(places.len() == 3 || places.len() == 4);
    assert!(!places.contains(&(1, 0)) && !places.contains(&(2, 0)), "the first edge along x is dear");
    let shut = vec![vec![vec![i64::MAX; 3]; 3]; 2];
    assert_eq!(maze_tree(&pins, &shut, &grid, 3, 3, 1, 0, i64::MAX).unwrap_err(), MazeError::NoConnectedPin, "no edge is cheaper than none");
}

fn wire(has_wire: bool, wires: i64, vias: i64) -> WireCount {
    WireCount { has_wire, wires, vias }
}

#[test]
fn guides_are_completed_but_not_merged() {
    let mut r = Routes::new();
    let i = r.entry("a");
    r.extend(i, vec![GSegment::new(0, 0, 2, 5, 0, 2), GSegment::new(5, 0, 2, 9, 0, 2)]);
    let nets = vec![
        RemainingNet { name: "a".into(), made: true, pins: vec![(0, 0, 2), (9, 0, 2)] },
        RemainingNet { name: "b".into(), made: true, pins: vec![(3, 3, 1)] },
    ];
    let out = cugr_guides(false, &vec![wire(true, 1, 3), wire(false, 0, 3)], &mut r, &nets, &vec!["b".to_string(), "a".to_string()], 1, 9, 9).unwrap();
    assert_eq!(out.iter().map(|n| (n.name.as_str(), n.segments.len())).collect::<Vec<_>>(), vec![("b", 1), ("a", 2)]);
    let lost = vec![RemainingNet { name: "z".into(), made: true, pins: vec![(0, 0, 2), (9, 0, 2)] }];
    let text = |some: bool, w: WireCount| cugr_guides(some, &vec![w], &mut Routes::new(), &lost, &vec![], 1, 9, 9).unwrap_err().message();
    assert_eq!(text(true, wire(true, 0, 1)), "cugr: set_nets_to_route (incremental routing) is not modelled");
    assert_eq!(text(false, wire(true, 0, 1)), "net z: a via-only wire \u{2014} hasStackedVias' via points are not wired");
    assert_eq!(text(false, wire(true, 0, 0)), "NoRouteGuides { net: \"z\" }");
}

#[test]
fn records_of_a_design() {
    let c = router();
    assert_eq!(list(&vec![1, -2]), "1,-2,");
    assert_eq!(init_record(2, 3, 4), "VYGC|init|2|3|4");
    assert_eq!(design_record(&c.design), "VYGC|design|dbu=1000|die=0,0,5900,5900|gcell=1000|layers=3|nets=0|obstacles=0|special=0");
    assert_eq!(gridlines_record(1, &c.design.gridlines[1]), "VYGC|gridlines|1|6|0,1000,2000,3000,4000,5900,");
    let o = BoxOnLayer { layer: 1, b: BoxT::new(1, 2, 3, 4) };
    assert_eq!(obstacle_record(7, &o), "VYGC|obs|7|1|1|2|3|4");
    assert_eq!(grid_record(&c.grid), format!("VYGC|grid|x=5|y=5|layers=3|m2pitch={}|minlayer=1", c.grid.m2_pitch));
    assert_eq!(numbered_list_record("tracks", 2, &vec![5]), "VYGC|tracks|2|5,");
    let pin = CugrPin { index: 0, name: "A".into(), is_port: true, shapes: vec![o] };
    let n = CugrNet { index: 3, name: "n".into(), pins: vec![pin], layer_range: LayerRange { min_layer: 1, max_layer: 2 }, facts_index: 0 };
    let mut out = vec!["first".to_string()];
    net_records(&mut out, &n);
    assert_eq!(out, vec!["first", "VYGC|dnet|3|n|pins=1|layers=1,2", "VYGC|dpin|3|0|B|A|1:1,2,3,4;"]);
}

#[test]
fn pins_stand_at_their_own_index() {
    let c = router();
    let at = |index: usize, name: &str, x: i32| CugrPin {
        index,
        name: name.into(),
        is_port: false,
        shapes: vec![BoxOnLayer { layer: 1, b: BoxT::new(x, 1200, x + 10, 1210) }],
    };
    let n = CugrNet { index: 0, name: "n".into(), pins: vec![at(1, "far", 3200), at(0, "near", 200)], layer_range: LayerRange { min_layer: 1, max_layer: 2 }, facts_index: 0 };
    let g = GrNet::new(&n, "I:far", &c.grid).unwrap();
    assert_eq!(g.pin_access_points[0], vec![GrPoint { layer: 1, p: Point::new(0, 1) }]);
    assert_eq!(g.pin_access_points[1], vec![GrPoint { layer: 1, p: Point::new(3, 1) }]);
    assert_eq!(g.driver_pin_index, 1);
}

#[test]
fn records_of_choices() {
    let v = |name: &str| TechViaFacts { name: name.into(), bottom: "m1".into(), top: "m2".into(), boxes: Vec::new(), or_default: false, is_default: false };
    let mut out = Vec::new();
    via_records(&mut out, &vec![v("a"), v("b")], &vec![Some(1), None]);
    assert_eq!(out, vec!["VYGC|via|0|b", "VYGC|via|1|-"]);
    let mut out = Vec::new();
    choice_records(&mut out, 7, 2, &vec![ApChoice { pin: 1, index: 3, accessibility: 2, distance: 40, center: Point::new(5, 6) }]);
    assert_eq!(out, vec!["VYGC|odbap|7|0|0|", "VYGC|odbap|7|1|0|", "VYGC|shapeap|7|1|3|2|40|center=5,6"]);
    assert_eq!(dirty_record("n", true, false, false), "VYGC|dirty|n|route=1|moved=0|reroute=0");
}

#[test]
fn records_of_a_search() {
    let g: SparseGraph<i64> = SparseGraph {
        pseudo_pins: vec![AccessPoint { p: Point::new(1, 4), layers: Interval::new(0, 1) }, AccessPoint { p: Point::new(4, 4), layers: Interval::new(2, 2) }],
        xs: vec![1, 4],
        ys: vec![4],
        vertices: Vec::new(),
        edges: Vec::new(),
        costs: Vec::new(),
        vertex_pin: Vec::new(),
        pin_vertex: Vec::new(),
    };
    assert_eq!(sparse_record(5, &SparseGrid::new(10, 10, 3, 4), &g), "VYGC|sparse|5|off=3,4|xs=1,4,|ys=4,|pins=1,4,0,1;4,4,2,2;");
    let nodes = vec![
        SteinerNode { p: Point::new(1, 2), fixed: Interval::new(0, 1), children: vec![1] },
        SteinerNode { p: Point::new(3, 2), fixed: Interval::new(2, 2), children: vec![] },
    ];
    let t = SteinerTree { nodes, root: 0, root_branch: 6 };
    assert_eq!(steiner_record(5, &t), "VYGC|steiner|5|6|1,2,0,1,1;3,2,2,2,0;");
    let mut out = Vec::new();
    maze_tree_record(&mut out, 5, 1, &t);
    assert!(out.is_empty(), "one cell");
    maze_tree_record(&mut out, 5, 2, &t);
    assert_eq!(out, vec!["VYGC|mazetree|5|1,2,0,1,1;3,2,2,2,0;"]);
}

#[test]
fn records_of_a_net() {
    let n = net(None);
    assert_eq!(grnet_record(&n), "VYGC|grnet|0|n|pins=2|driver=-1|bbox=1,4,4,4|hp=3");
    assert_eq!(access_record(0, 1, &n.pin_access_points[1]), "VYGC|pap|0|1|2:4:4;");
    assert_eq!(preferred_record(0, 1, Point::new(1, 4), Interval::new(0, 1)), "VYGC|pref|0|1|1|4|0|1");
    assert_eq!(selected_record(0, &AccessPoint { p: Point::new(1, 4), layers: Interval::new(0, 1) }), "VYGC|sel|0|1|4|0|1");
    assert_eq!(input_record(5, &SteinerInput { xs: vec![1, 2], ys: vec![3, 4], driver_index: 1 }), "VYGC|sttin|5|1|1,3;2,4;");
    assert_eq!(branches_record(5, &vec![TreeBranch { x: 1, y: 2, n: 1 }, TreeBranch { x: 3, y: 4, n: 1 }]), "VYGC|stt|5|0:1,2,1;1:3,4,1;");
    let nodes = vec![
        SteinerNode { p: Point::new(1, 2), fixed: Interval::new(0, 1), children: vec![1] },
        SteinerNode { p: Point::new(3, 2), fixed: Interval::new(2, 2), children: vec![] },
    ];
    assert_eq!(steiner_nodes(&SteinerTree { nodes, root: 0, root_branch: 0 }), "1,2,0,1,1;3,2,2,2,0;");
    assert_eq!(tree_record(1, 5, &tree()), "VYGC|tree|1|5|0:1:4:1;2:1:4:1;2:4:4:0;");
    assert_eq!(congestion_record(0, 3, &vec![true, false]), "VYGC|cgv|0|3|10");
    let mut out = Vec::new();
    congestion_view(&mut out, &vec![vec![vec![true]], vec![vec![false], vec![true]]]);
    assert_eq!(out, vec!["VYGC|cgv|0|0|1", "VYGC|cgv|1|0|0", "VYGC|cgv|1|1|1"]);
}
