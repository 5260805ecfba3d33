use vyges_grt::brk_rsmt::{
    append_segments, build_tree, copy_st_tree, edge_shift, edge_shift_new, gap_usage_h, gap_usage_v, gen_brk_rsmt, htree_suite, map_back, mapxy, net_congestion, newroute_l,
    pin_bbox, pin_idx_from_position, place_gaps, ripup_net_segments, scale_back, scaled, small_tree, sort_pins, Branch, BrkFlags, BrkSummary, CapLayer, Caps3D, Coefficient,
    CopyTreeError, EdgeRoute, NetTrees, RouteKind, RoutedSegment, RoutedShape, RsmtNet, RsmtTree, StTree, TreeEdge, TreeKind, TreePlan, TreeRoute,
};
use vyges_grt::congestion_loop::{
    demotion_order, route_edges, CoefficientStep, IterationEnd, LoopState, LoopEvent, Overflow2DScan, PassKind, PassPlan, PlaneEdge, Settled, SlackAnswer, SlackRead, TimerSlack,
};
use vyges_grt::estimate::{
    capacity_lower_bound, check_2d_edges_usage, choose_l_shape, commit_l_shape, congestion_cost, estimate_all, estimate_one_seg, needs_l_route, EstimateGrid, LShape, Segment,
    UsageViolation,
};
use vyges_grt::finalize::{
    assign_edge, edge_resources, edge_turns, get_overflow_3d_all, next_node, node_pin_layers, refuse_res_aware, route_to_full_3d, size_route, update_slacks, EdgeQueue, EdgeTurn, Graph3d, LayerDir, LayerParams, WalkNode,
};
use vyges_grt::graph2d::{CellSet, Graph2d, UsedCell};
use vyges_grt::sorting::order_by;
use vyges_grt::tree_usage::{apply_soft_ndr, copy_br, copy_rs, soft_ndr_demotion, PlaneCharge};

fn segment(x1: i32, y1: i32, x2: i32, y2: i32, edge_cost: i8) -> Segment {
    Segment { x1, y1, x2, y2, edge_cost }
}

// Demand is counted in halves.
#[test]
fn a_slanted_segment_is_charged_by_halves() {
    let mut g = EstimateGrid::new(3, 3);
    assert_eq!((g.h_columns(), g.v_rows()), (2, 2));
    let s = segment(0, 0, 2, 1, 3);
    assert!(needs_l_route(&s));
    assert!(!needs_l_route(&segment(0, 0, 2, 0, 3)));
    estimate_one_seg(&mut g, &s);
    assert_eq!((g.h(0, 0), g.h(1, 0), g.h(0, 1), g.h(1, 1)), (3, 3, 3, 3));
    assert_eq!((g.v(0, 0), g.v(1, 0), g.v(2, 0)), (3, 0, 3));
    estimate_all(&mut g, &[vec![segment(1, 2, 1, 0, 1), segment(0, 2, 1, 2, 2)]]);
    assert_eq!((g.v(1, 0), g.v(1, 1), g.h(0, 2)), (2, 2, 4));
}

// The bend that is taken is charged in full, and the other not at all.
#[test]
fn a_bend_is_committed() {
    for (shape, across, up) in [(LShape::XFirst, (6, 0), (0, 6)), (LShape::YFirst, (0, 6), (6, 0))] {
        let mut g = EstimateGrid::new(3, 3);
        let s = segment(0, 0, 2, 1, 3);
        estimate_one_seg(&mut g, &s);
        commit_l_shape(&mut g, &s, shape);
        assert_eq!((g.h(0, 0), g.h(0, 1)), across);
        assert_eq!((g.v(0, 0), g.v(2, 0)), up);
    }
    assert_eq!(choose_l_shape(1, 1), LShape::XFirst, "a tie goes across first");
    assert_eq!(choose_l_shape(0, 1), LShape::YFirst);
}

#[test]
fn congestion_costs_above_nine_tenths() {
    for c in [0u32, 1, 7, 10, 100, 1001, 70_000, 16_777_217, 4_000_000_000] {
        let bound = 0.9f32 * c as f32;
        assert_eq!(capacity_lower_bound(c), (f64::from(bound) * 16_777_216.0) as i64);
    }
    let b = capacity_lower_bound(10);
    assert_eq!(congestion_cost(20, 1, b), 11 * 16_777_216 - b);
    assert_eq!(congestion_cost(17, 0, b), 0);
}

#[test]
fn runaway_usage_is_found() {
    let mut g = EstimateGrid::new(3, 3);
    g.update_usage_h(1, 2, 600);
    g.update_usage_v(2, 0, 401);
    assert_eq!(check_2d_edges_usage(&g, 3, 2), vec![UsageViolation { x: 2, y: 0, horizontal: false, usage: 401, limit: 200 }]);
    g.update_usage_h(1, 2, 1);
    assert_eq!(check_2d_edges_usage(&g, 3, 2)[0], UsageViolation { x: 1, y: 2, horizontal: true, usage: 601, limit: 300 });
    let mut g = EstimateGrid::new(2, 2);
    g.update_h(0, 1, 0, 5);
    g.update_v(1, 0, 1, 7);
    g.add_est_usage_to_usage();
    g.add_est_usage_to_usage();
    assert_eq!((g.usage_h(0, 0), g.usage_v(1, 0), g.h(0, 0)), (10, 14, 5), "the estimate stays");
}

#[test]
fn used_edges_are_remembered_in_order() {
    let mut g = Graph2d::new(3, 3);
    g.update_h(0, 2, 1, 1, &[5, 6]);
    g.update_h(0, 1, 0, -1, &[-2]);
    g.update_v(2, 0, 1, 1, &[7]);
    g.update_usage_v(0, 0, 1, 9);
    g.update_usage_h(0, 2, 0, 1);
    let cell = |x: i32, y: i32, est_usage: i64| UsedCell { x, y, est_usage, cap: 0 };
    assert_eq!(g.used_cells(), (vec![cell(0, 1, 5), cell(1, 1, 6)], vec![cell(0, 0, 0), cell(2, 0, 7)]));
    assert_eq!((g.est.h(0, 0), g.est.usage_v(0, 0), g.est.usage_h(0, 2)), (-2, 9, 1));
    g.clear_used();
    assert_eq!(g.used_cells(), (vec![], vec![]));
}

fn rsmt(pins: &[(i32, i32)]) -> RsmtNet {
    RsmtNet { pins_x: pins.iter().map(|p| p.0).collect(), pins_y: pins.iter().map(|p| p.1).collect(), edge_cost: 1, min_layer: 0, max_layer: 1 }
}

fn b(x: i32, y: i32, n: usize) -> Branch {
    Branch { x, y, n }
}

// The two orders differ on ties: pins of equal x are swapped into place, and of equal y written over.
#[test]
fn pins_are_sorted() {
    let s = sort_pins(&[3, 1, 2, 1], &[0, 5, 5, 2]);
    assert_eq!((s.xs, s.ys, s.s), (vec![1, 1, 2, 3], vec![0, 2, 5, 5], vec![3, 1, 2, 0]));
    let n = 1200;
    let (x, y): (Vec<i32>, Vec<i32>) = ((0..n).map(|i| i % 7).collect(), (0..n).map(|i| i % 5).collect());
    let s = sort_pins(&x, &y);
    let mut by_x: Vec<usize> = (0..n as usize).collect();
    by_x.sort_by_key(|&p| x[p]);
    let mut by_y = by_x.clone();
    by_y.sort_by_key(|&p| y[p]);
    assert_eq!(s.xs, by_x.iter().map(|&p| x[p]).collect::<Vec<_>>());
    assert_eq!(s.s, by_y.iter().map(|&p| by_x.iter().position(|&q| q == p).unwrap()).collect::<Vec<_>>());
}

#[test]
fn small_trees_meet_in_the_middle() {
    let t = small_tree(&[1, 4], &[2, 8]);
    assert_eq!((t.deg, t.length, t.branch), (2, 9, vec![b(1, 2, 1), b(4, 8, 1)]));
    let t = small_tree(&[1, 9, 4], &[2, 3, 8]);
    assert_eq!((t.deg, t.length, t.branch), (3, 14, vec![b(1, 2, 3), b(9, 3, 3), b(4, 8, 3), b(4, 3, 3)]));
}

// Halving finds a coordinate that is there.
#[test]
fn coordinates_are_stretched_and_mapped_back() {
    assert_eq!(mapxy(30, &[1, 2, 3], &[10, 20, 30], 3), 3);
    assert_eq!(mapxy(15, &[1, 2, 3], &[10, 20, 30], 3), -1);
    assert_eq!(scaled(&[3, -2], 100), vec![300, -200]);
    assert_eq!(place_gaps(5, &[10, 0, 7]), vec![5, 15, 15, 22]);
    let mut t = RsmtTree { deg: 1, length: 900, branch: vec![b(350, 272, 0), b(-350, -137, 0)] };
    scale_back(&mut t, 136);
    assert_eq!((t.length, t.branch.clone()), (900, vec![b(3, 2, 0), b(-3, -1, 0)]));
    let mut t = RsmtTree { deg: 1, length: 0, branch: vec![b(10, 7, 0), b(20, 99, 0)] };
    map_back(&mut t, &[1, 2], &[10, 20], &[3, 4], &[5, 7]);
    assert_eq!(t.branch, vec![b(1, 4, 0), b(2, -1, 0)]);
}

#[test]
fn wide_nets_and_full_edges() {
    assert_eq!(pin_bbox(&rsmt(&[(3, 4), (9, 1)])), (3, 9, 1, 4));
    assert!(!htree_suite(&rsmt(&[(0, 0), (5, 1)])), "exactly five times is not wider");
    assert!(htree_suite(&rsmt(&[(0, 0), (6, 1)])));
    let caps = Caps3D { x_grid: 3, layers: vec![CapLayer { h: vec![1; 9], v: vec![2; 9] }, CapLayer { h: vec![2; 9], v: vec![2; 9] }] };
    assert_eq!((caps.edge_capacity(0, 1, 0, 0, true), caps.edge_capacity(1, 1, 0, 0, false)), (3, 2));
    let mut est = EstimateGrid::new(3, 3);
    let l = [RoutedSegment { seg: segment(0, 0, 2, 1, 1), x_first: true }];
    est.update_h(1, 2, 0, 5);
    assert!(!net_congestion(&rsmt(&[]), &l, &est, &caps));
    est.update_h(1, 2, 0, 1);
    assert!(net_congestion(&rsmt(&[]), &l, &est, &caps), "three tracks of three");
    let back = [RoutedSegment { seg: segment(0, 0, 2, 1, 1), x_first: false }];
    assert!(!net_congestion(&rsmt(&[]), &back, &est, &caps), "the other way is free");
    ripup_net_segments(&l, &mut est);
    assert_eq!((est.h(0, 0), est.h(1, 0), est.v(2, 0)), (-2, 4, -2));
}

#[test]
fn the_builder_is_chosen() {
    let flags = |congestion_driven: bool, no_adj: bool| BrkFlags { congestion_driven, re_route: false, gen_tree: false, no_adj };
    assert_eq!(build_tree(flags(true, false), true, 9, false, true), TreePlan { kind: TreeKind::Stt, coefficient: None, shift: false });
    assert_eq!(build_tree(flags(true, false), false, 4, false, true), TreePlan { kind: TreeKind::Congest, coefficient: Some(Coefficient::Adjusted), shift: true });
    assert_eq!(build_tree(flags(true, true), false, 3, false, false), TreePlan { kind: TreeKind::Normal, coefficient: Some(Coefficient::NoAdjustments), shift: false });
    assert_eq!(build_tree(flags(false, false), false, 4, true, false).coefficient, Some(Coefficient::NoAdjustments));
    assert_eq!(build_tree(flags(false, false), false, 4, false, false).coefficient, Some(Coefficient::Default));
}

// Every edge of a copy has two ends, each of which lists it.
#[test]
fn trees_are_copied() {
    let net = rsmt(&[(0, 0), (4, 0), (4, 0)]);
    let t = RsmtTree { deg: 3, length: 4, branch: vec![b(0, 0, 3), b(4, 0, 3), b(4, 0, 3), b(4, 0, 3)] };
    let c = copy_st_tree(&t, &net).unwrap();
    assert_eq!(c.edges, vec![TreeEdge { n1: 0, n2: 3, len: 4 }, TreeEdge { n1: 3, n2: 1, len: 0 }, TreeEdge { n1: 3, n2: 2, len: 0 }]);
    assert_eq!(c.nodes.iter().map(|n| n.status).collect::<Vec<_>>(), vec![2, 2, 2, 0]);
    assert_eq!(c.nbr[3], vec![0, 1, 2]);
    assert_eq!(c.edge[3], vec![0, 1, 2]);
    assert_eq!(c.node_to_pin_idx, vec![0, 1, 2], "stacked pins map one to one");
    assert!(c.routes.iter().all(|r| r.kind == RouteKind::NoRoute && r.z_point == -1));
    assert_eq!(pin_idx_from_position(&net, 4, 0, 2), 2);
    assert_eq!(pin_idx_from_position(&net, 4, 0, 3), -1);
    let star = RsmtTree { deg: 4, length: 0, branch: vec![b(0, 0, 4), b(1, 0, 4), b(2, 0, 4), b(3, 0, 4), b(1, 1, 4)] };
    assert_eq!(copy_st_tree(&star, &net).unwrap_err(), CopyTreeError::InvalidNeighbors);
    let split = RsmtTree { deg: 2, length: 0, branch: vec![b(0, 0, 0), b(1, 0, 1)] };
    assert_eq!(copy_st_tree(&split, &net).unwrap_err(), CopyTreeError::EdgeCount { edges: 0, nodes: 2 });
}

#[test]
fn a_net_is_broken_into_segments() {
    let net = rsmt(&[(4, 1), (0, 0)]);
    let t = RsmtTree { deg: 2, length: 5, branch: vec![b(4, 1, 1), b(0, 0, 1)] };
    let mut list = Vec::new();
    assert_eq!(append_segments(&t, 2, &mut list), 5);
    assert_eq!(list, vec![RoutedSegment { seg: segment(0, 0, 4, 1, 2), x_first: false }]);
    let flags = BrkFlags { congestion_driven: true, re_route: true, gen_tree: true, no_adj: false };
    let mut state = NetTrees { seglist: list, tree: None };
    let mut sum = BrkSummary { wirelength: 10, wirelength1: 20, total_num_seg: 30, num_shift: 40 };
    assert!(gen_brk_rsmt(flags, &net, &t, 3, &mut state, &mut sum).is_ok());
    assert_eq!(sum, BrkSummary { wirelength: 15, wirelength1: 25, total_num_seg: 32, num_shift: 43 });
    assert_eq!(state.seglist.len(), 2, "the old segments stay");
    let mut tree = state.tree.unwrap();
    newroute_l(&mut tree, &[EdgeRoute::L(LShape::XFirst)]);
    assert_eq!((tree.routes[0].kind, tree.routes[0].x_first), (RouteKind::LRoute, true));
    assert!(matches!(tree.routes[0].shape(), RoutedShape::L { x_first: true }));
}

#[test]
fn an_edge_is_shifted_off_congestion() {
    let mut est = EstimateGrid::new(5, 5);
    est.update_h(0, 4, 2, 20);
    let tree = || RsmtTree { deg: 4, length: 0, branch: vec![b(0, 0, 4), b(0, 4, 4), b(4, 0, 5), b(4, 4, 5), b(0, 2, 5), b(4, 2, 5)] };
    let mut t = tree();
    assert_eq!(edge_shift(&mut t, 4, &est), 1);
    assert_eq!((t.branch[4], t.branch[5]), (b(0, 0, 5), b(4, 0, 5)), "the lowest of the free rows");
    let mut t = tree();
    assert_eq!(edge_shift_new(&mut t, 4, &est), 1);
    let mut still = tree();
    assert_eq!(edge_shift(&mut still, 4, &EstimateGrid::new(5, 5)), 0);
}

// Node 4 has five neighbours, which run on into the slots of node 5; and a Steiner node may lead to a terminal.
#[test]
fn a_crowded_node_runs_into_the_next_ones_slots() {
    let mut est = EstimateGrid::new(5, 5);
    est.update_h(0, 4, 2, 20);
    let mut t = RsmtTree { deg: 4, length: 0, branch: vec![b(0, 0, 4), b(0, 4, 4), b(0, 1, 4), b(0, 3, 4), b(0, 2, 5), b(4, 2, 5)] };
    assert_eq!(edge_shift(&mut t, 4, &est), 1);
    assert_eq!((t.branch[4], t.branch[5]), (b(0, 0, 5), b(4, 0, 5)), "node 5 sees nodes 4, 5 and 0, so that its band ends at row 2");
    let mut t = RsmtTree { deg: 2, length: 0, branch: vec![b(0, 0, 2), b(4, 4, 3), b(0, 2, 3), b(4, 2, 1)] };
    edge_shift(&mut t, 2, &est);
    assert_eq!(t.branch[3].n, 1);
}

// Each sum drops its fraction before the next edge is added.
#[test]
fn gaps_are_loaded() {
    let mut est = EstimateGrid::new(3, 3);
    est.update_h(0, 2, 0, 3);
    est.update_v(0, 0, 2, 3);
    let red = vec![1u16; 9];
    assert_eq!(gap_usage_h(&est, &red, 0, 2, 0, 0), 4);
    assert_eq!(gap_usage_h(&est, &red, 0, 2, 0, 1), 6);
    assert_eq!(gap_usage_v(&est, &red, 0, 0, 0, 2), 4);
}

fn graph(cap: u16, usage: u16) -> Graph3d {
    let g = |v: u16| vec![vec![v; 9]; 2];
    Graph3d { x_grid: 3, num_layers: 2, h_cap: g(cap), v_cap: g(cap), h_usage: g(usage), v_usage: g(usage) }
}

#[test]
fn layers_are_assigned() {
    let mut g = graph(5, 0);
    g.v_usage[1][4] = 3;
    let grids = vec![(0, 1), (1, 1), (1, 2)];
    let (upright, free) = edge_resources(&g, &grids, 2, 3);
    assert_eq!(upright, vec![false, true]);
    assert_eq!(free, vec![vec![5, 5], vec![5, 2]]);
    let node = |assigned: bool, bot: i16, top: i16| WalkNode { assigned, bot_layer: bot, top_layer: top, l_id: 9, h_id: 9 };
    let mut walk = vec![node(true, 1, 1), node(false, 7, -1)];
    let route = TreeRoute { kind: RouteKind::MazeRoute, x_first: false, hvh: false, z_point: -1, grids, routelen: 2, last_routelen: 0, layers: vec![0, 1, 1] };
    assign_edge(&mut walk, 0, 1, 4, &route, true, &mut g, &vec![2, 3], 3);
    assert_eq!(walk[0], WalkNode { assigned: true, bot_layer: 0, top_layer: 1, l_id: 4, h_id: 9 }, "the fixed end widens");
    assert_eq!(walk[1], WalkNode { assigned: false, bot_layer: 1, top_layer: 1, l_id: 4, h_id: 4 }, "the far end is pinned");
    assert_eq!((g.h_usage[0][3], g.v_usage[1][4]), (2, 6));
    let mut used = CellSet::new();
    used.insert(1, 1);
    used.insert(1, 1);
    g.v_usage[1][4] = 8;
    let o = get_overflow_3d_all(&CellSet::new(), &used, &g, 3);
    assert_eq!((o.vertical, o.horizontal, o.max_vertical, o.total_usage), (3, 0, 3, 8));
}

#[test]
fn edges_queue_once() {
    let mut q = EdgeQueue::new(4);
    q.push_node(&vec![2, 0, 2]);
    q.push_node(&vec![0, 3]);
    assert_eq!(q.queue, vec![2, 0, 3]);
    assert_eq!((next_node(5, 6, true), next_node(5, 6, false)), (6, 5));
}

#[test]
fn pins_give_their_layers() {
    assert_eq!(node_pin_layers(3, 2, &vec![1, 0], &vec![4, 7]), Ok(vec![7, 4]));
    assert_eq!(node_pin_layers(3, 2, &vec![1, -1], &vec![4, 7]), Err("net 3: terminal 1 has no pin (-1)".to_string()));
    assert_eq!(refuse_res_aware(&[0, 1], &vec![false, true]), Err("net 1 is resistance-aware on entry to layer assignment: not wired".to_string()));
    assert_eq!(refuse_res_aware(&[0], &vec![false, true]), Ok(()));
    let p = |liberty: bool| LayerParams { layer_dir: vec![LayerDir::Horizontal, LayerDir::Vertical], resistance_aware: true, liberty, has_2d_overflow: false };
    assert_eq!(update_slacks(&[0], &vec![false, true], &[], &p(true)), Ok(true));
    assert_eq!(update_slacks(&[0], &vec![false, true], &[], &p(false)), Ok(false));
    assert_eq!(
        update_slacks(&[0], &vec![false, true], &[4, 0], &p(true)),
        Err("updateSlacks: net 4 survives the skip rules and needs its resistance from the database: not wired".to_string())
    );
    assert!(update_slacks(&[1], &vec![false, true], &[4], &p(true)).unwrap_err().starts_with("net 1 is resistance-aware"));
    let mut r = TreeRoute { kind: RouteKind::LRoute, x_first: true, hvh: false, z_point: -1, grids: vec![(0, 0)], routelen: 1, last_routelen: 7, layers: vec![] };
    size_route(&mut r);
    assert_eq!((r.grids.clone(), r.layers.clone()), (vec![(0, 0), (0, 0)], vec![0, 0]));
    r.grids[1] = (1, 0);
    r.layers[1] = 2;
    route_to_full_3d(1, &mut r, 3);
    assert_eq!((r.grids.clone(), r.layers.clone(), r.routelen), (vec![(0, 0), (1, 0), (1, 0), (1, 0)], vec![0, 0, 1, 2], 3));
}

fn scan(total_overflow: i32, max_overflow: i32) -> Overflow2DScan {
    Overflow2DScan { max_overflow, total_overflow, total_usage: 900_000, ahth: 4 }
}

// The best round is remembered, and an iteration keeps its bounds.
#[test]
fn an_iteration_of_the_loop() {
    let mut s = LoopState::new(0, scan(3000, 5));
    assert!(s.running(50) && !s.running(0));
    assert_eq!(s.begin(), (1, 4, false));
    let main = s.plan(3, 100, 80);
    assert_eq!((main.coefficient, main.init_last_usage), (CoefficientStep::Keep, false));
    assert_eq!(main.pass, PassPlan { iter: 1, expand: 25, ripup_threshold: -1, maze_edge_threshold: 10, ordering: false, via: 2, l: 1, slope: 20, cost_height: 6 });
    let sch = s.schedule((1, 4, false));
    assert_eq!((sch.up_type, sch.thresh_m, sch.cost_step, sch.max_adj), (1, 10, 2, 3));
    assert_eq!(s.before_pass(&main, (1, 4, false)), LoopEvent::Before { pass: main.pass, schedule: sch });
    assert_eq!(s.after_pass(PassKind::Main, scan(1000, 5)), LoopEvent::After { kind: PassKind::Main, iter: 1, scan: scan(1000, 5) });
    assert_eq!(s.after_main(scan(1000, 5)), None);
    assert_eq!((s.minofl, s.minoflrnd), (1000, 1));
    assert_eq!(s.settle(), Settled { accu: None, copy_pass: None });
    assert_eq!((s.costheight, s.via), (6, 2), "a third is less than seven tenths");
    assert_eq!(s.end_iteration(), IterationEnd::Continue { demote: false });
    s.begin();
    s.plan(3, 100, 80);
    s.after_main(scan(1200, 1));
    s.settle();
    assert_eq!((s.minofl, s.minoflrnd, s.minofl_stagnant, s.via), (1000, 1, 1, 0), "the first round was better");
    assert_eq!(s.costheight, 6 + 2 + 5);
    let end = s.finish(vec![7]);
    assert_eq!((end.minofl, end.minoflrnd, end.has_2d_overflow, end.soft_ndr), (1000, 1, true, vec![7]));
    assert_eq!((end.iterations, end.scan), (2, scan(1200, 1)));
    s.rescan(scan(90, 2));
    assert_eq!((s.finish(Vec::new()).scan, s.past_cong), (scan(90, 2), 1200), "the rounds' own congestion stays");
    assert!(!LoopState::new(0, scan(0, 0)).running(50));
}

#[test]
fn rare_rounds_of_the_loop() {
    let mut s = LoopState::new(701, scan(20_000, 500));
    assert_eq!((s.thresh_m, s.cstep1, s.via), (0, 30, 0));
    s.i = 5;
    s.begin();
    let main = s.plan(0, 300, 90);
    assert_eq!((main.coefficient, main.pass.expand, main.pass.slope, main.pass.l), (CoefficientStep::Reset, 10, 1_000_000_000, 0));
    s.i = 19;
    let extra = s.after_main(scan(300, 100)).unwrap();
    assert_eq!((extra.iter, extra.l, extra.slope), (20, 0, 5));
    assert_eq!(s.after_extra(scan(250, 90)), 12);
    assert_eq!((s.l, s.slope, s.up_type, s.stop_dec), (1, 3, 2, false));
    s.i = 34;
    s.after_main(scan(240, 90));
    assert_eq!(s.settle().accu, Some(25));
    s.i = 81;
    s.after_main(scan(15, 3));
    assert!(s.settle().copy_pass.is_some());
    assert!(s.after_copy_pass(scan(12, 3)));
    assert_eq!((s.minofl, s.bmfl), (12, 12));
    s.i = 500;
    assert_eq!(s.end_iteration(), IterationEnd::Rescan);
    s.bwcnt = 51;
    assert_eq!(s.end_iteration(), IterationEnd::Stop);
    s.i = 16;
    s.bwcnt = 0;
    assert_eq!(s.end_iteration(), IterationEnd::Continue { demote: true });
    s.restart();
    assert_eq!((s.i, s.minofl, s.bmfl, s.slope, s.l), (1, 12, 12, 20, 1));
}

#[test]
fn demoted_nets_give_their_edges_back() {
    assert_eq!(
        route_edges(&vec![(0, 0), (1, 0), (1, 1), (1, 1)], 3),
        vec![PlaneEdge { x: 0, y: 0, horizontal: true }, PlaneEdge { x: 1, y: 0, horizontal: false }]
    );
    assert!(route_edges(&vec![(0, 0)], 0).is_empty());
    assert_eq!(demotion_order(&[(4, 1), (7, 3), (2, 2)]), Ok(vec![7, 2, 4]));
    assert_eq!(demotion_order(&[(4, 1), (7, 1)]), Err("soft-NDR: two congested NDR nets tie on their count — libc++'s unstable sort order is not modelled".to_string()));
    // an order lists every place once
    assert_eq!(order_by(&vec![3, 1, 2, 1]), vec![1, 3, 2, 0]);
}

/// A tree of one branch whose route is walked along some points.
fn walked(grids: &[(i32, i32)]) -> StTree {
    let (a, z) = (grids[0], grids[grids.len() - 1]);
    let t = RsmtTree { deg: 2, length: 0, branch: vec![b(a.0, a.1, 1), b(z.0, z.1, 1)] };
    let mut tree = copy_st_tree(&t, &rsmt(&[a, z])).unwrap();
    tree.routes[0].grids = grids.to_vec();
    tree.routes[0].routelen = grids.len() as i32 - 1;
    tree
}

fn charge(net: usize, x: i32, y: i32, horizontal: bool, amount: i32) -> PlaneCharge {
    PlaneCharge { net, edge: PlaneEdge { x, y, horizontal }, amount }
}

// What is charged is what the new trees take and the old ones took not; a tree put back in its own place
// changes nothing.
#[test]
fn saved_trees_are_put_back_with_their_usage() {
    let mut trees = vec![Some(walked(&[(0, 0), (1, 0), (1, 1)])), None, Some(walked(&[(0, 0), (0, 1), (1, 1)]))];
    let bk = copy_rs(&[0, 1], &trees);
    assert!(bk[0].is_some() && bk[1].is_none() && bk[2].is_none(), "only the routed nets are saved");
    assert_eq!(bk[0].as_ref().unwrap().routes[0].kind, RouteKind::NoRoute);
    let costs = vec![3, 1, 2];
    assert!(copy_br(&[0, 1, 2], &costs, &mut trees, None).is_empty());
    trees[0] = Some(walked(&[(0, 0), (0, 1), (1, 1)]));
    let c = copy_br(&[0, 1], &costs, &mut trees, Some(&bk));
    assert_eq!(c, vec![charge(0, 0, 0, false, -3), charge(0, 0, 1, true, -3), charge(0, 0, 0, true, 3), charge(0, 1, 0, false, 3)]);
    assert_eq!((trees[0].as_ref().unwrap().routes[0].kind, trees[0].as_ref().unwrap().routes[0].grids[1]), (RouteKind::MazeRoute, (1, 0)));
    let again = copy_br(&[0], &costs, &mut trees, Some(&bk));
    let sum: i32 = again.iter().filter(|c| c.edge.horizontal).map(|c| c.amount).sum();
    assert_eq!((again.len(), sum), (4, 0));
}

#[test]
fn rules_are_given_up() {
    let trees = vec![Some(walked(&[(0, 0), (1, 0), (2, 1)])), Some(walked(&[(0, 0), (0, 1)])), None];
    let (mut costs, mut soft) = (vec![5, 4, 9], vec![false; 3]);
    let (ids, c) = soft_ndr_demotion(&[(0, 1), (1, 7)], &mut costs, &mut soft, &trees).unwrap();
    assert_eq!(ids, vec![1, 0], "the most congested first");
    assert_eq!(c, vec![charge(1, 0, 0, false, -4), charge(1, 0, 0, false, 1), charge(0, 0, 0, true, -5), charge(0, 0, 0, true, 1)]);
    assert_eq!((costs.clone(), soft.clone()), (vec![1, 1, 9], vec![true, true, false]));
    let (mut costs, mut soft) = (vec![5, 4, 9], vec![false; 3]);
    assert!(soft_ndr_demotion(&[(0, 1), (1, 1)], &mut costs, &mut soft, &trees).is_err());
    assert_eq!(costs, vec![5, 4, 9]);
    assert_eq!(apply_soft_ndr(&vec![0, 2, 1], &mut costs, &mut soft, &trees).unwrap_err(), "soft-NDR: net 2 has no 2D tree");
    assert_eq!((costs, soft), (vec![1, 4, 9], vec![true, false, false]), "those before it have given theirs up");
}

// Two terminals (0 and 1) and two Steiner nodes (2 and 3); edge 1 joins the Steiner nodes.
#[test]
fn edges_take_their_turns_from_the_terminals() {
    let node_edges = vec![vec![0], vec![2], vec![0, 1], vec![1, 2]];
    let ends = vec![(0, 2), (2, 3), (3, 1)];
    let turns = edge_turns(&node_edges, &ends, 2, &vec![true, true, false, false]);
    // Edge 0 leaves terminal 0, edge 2 is taken from its second end, and edge 1 comes last, once.
    assert_eq!(turns, vec![EdgeTurn { eid: 0, dir: true }, EdgeTurn { eid: 2, dir: false }, EdgeTurn { eid: 1, dir: true }]);
    assert!(edge_turns(&node_edges, &ends, 0, &vec![true, true, false, false]).is_empty());
}

#[test]
fn slacks_are_those_of_the_call() {
    let every = TimerSlack::Every(vec![7, 8]);
    assert_eq!(every.for_call(0, SlackRead::Partial), SlackAnswer::Known(&vec![7, 8]));
    assert_eq!(every.for_call(9, SlackRead::Partial), SlackAnswer::Known(&vec![7, 8]));
    let per_call = TimerSlack::PerCall(vec![vec![1], vec![2]]);
    assert_eq!(per_call.for_call(1, SlackRead::Partial), SlackAnswer::Known(&vec![2]));
    assert_eq!(per_call.for_call(2, SlackRead::Partial), SlackAnswer::Unknown);
    assert_eq!(TimerSlack::<i32>::Unknown.for_call(0, SlackRead::Partial), SlackAnswer::Unknown);
    let read = SlackRead::Update { is_3d_step: true };
    assert_eq!(TimerSlack::<i32>::Compute.for_call(3, read), SlackAnswer::Ask { read, call: 3 });
}
