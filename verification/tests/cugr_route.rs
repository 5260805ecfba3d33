use vyges_grt::cugr::access::{select_access_points, AccessPoint, AccessPointMap};
use vyges_grt::cugr::design::{Design, DesignFacts, LayerRange, Shape, ShapeLayer, TechLayerFacts, TechViaFacts, VIA_MULTIPLIER};
use vyges_grt::cugr::geo::{Interval, Point};
use vyges_grt::cugr::grid_graph::{Commit, CommitError, Flags, GridError, GridGraph};
use vyges_grt::cugr::grnet::{GrNet, GrPoint};
use vyges_grt::cugr::heap::{LeastKeyFirst, LibcxxHeap};
use vyges_grt::cugr::layers::MetalLayerFacts;
use vyges_grt::cugr::maze_route::{clean_up, lines, SparseGrid};
use vyges_grt::cugr::pattern_route::{construct_routing_dag, layer_rules, run, settle_layers, BestPath, Choice, Dag, RouteCosts};
use vyges_grt::cugr::restore::{build_tree_from_route, Restore};
use vyges_grt::cugr::route::{restore_cugr_for_repair, AdoptError, LoadedNet};
use vyges_grt::cugr::steiner::{construct_steiner_tree, steiner_input, SteinerNode, SteinerTree, TreeBranch};
use vyges_grt::cugr::tree::GrTree;
use vyges_grt::cugr::{init, Cugr, StageError};
use vyges_grt::GSegment;

fn metal(name: &str, level: i32, horizontal: bool, tracks: (i32, i32, i32), upper: &str) -> TechLayerFacts {
    TechLayerFacts {
        name: name.into(),
        is_routing: true,
        routing_level: level,
        upper_layer: upper.into(),
        metal: Some(MetalLayerFacts {
            name: name.into(),
            routing_level: level,
            horizontal,
            width: 100,
            min_width: 100,
            spacing: 100,
            tracks,
            area: 0,
            v55_widths_and_lengths: None,
            v55_table: None,
        }),
    }
}

fn layer(name: &str, level: i32, horizontal: bool) -> TechLayerFacts {
    metal(name, level, horizontal, (200, 100, 30), "")
}

fn facts_of(side: i32, layers: Vec<TechLayerFacts>) -> DesignFacts {
    DesignFacts {
        dbu_per_micron: 1000,
        die: (0, 0, side, side),
        gcell_tile_size: 1000,
        layers,
        vias: Vec::new(),
        nets: Vec::new(),
        instance_shapes: Vec::new(),
        design_obstructions: Vec::new(),
        min_layer_for_clock: 0,
        max_layer_for_clock: 0,
    }
}

fn router_of(side: i32) -> Cugr {
    init(&facts_of(side, vec![layer("m1", 1, true), layer("m2", 2, false), layer("m3", 3, true)]), &Vec::new(), 2, 3).unwrap()
}

/// An edge's capacity in tracks: the usable part of each track, summed in the order of the tracks.
fn capacity(g: &GridGraph, layer: usize, x: usize, y: usize) -> f64 {
    let along = if g.layer_directions[layer] == 0 { x } else { y };
    let mut sum = 0.0;
    for &u in &g.edge(layer, x, y).usable {
        sum += f64::from(u) / f64::from(g.edge_length(g.layer_directions[layer], along));
    }
    sum
}

/// Which edges hold a whole track or more.
fn open(g: &GridGraph) -> Flags {
    (0..g.num_layers).map(|l| (0..g.x_size).map(|x| (0..g.y_size).map(|y| capacity(g, l, x, y) >= 1.0).collect()).collect()).collect()
}

fn net(pins: &[&[(i32, i32, i32)]]) -> GrNet {
    let mut n = GrNet {
        index: 0,
        name: "n".into(),
        pin_access_points: pins.iter().map(|p| p.iter().map(|&(l, x, y)| GrPoint { layer: l, p: Point::new(x, y) }).collect()).collect(),
        bounding_box: Default::default(),
        driver_pin_index: -1,
        layer_range: LayerRange { min_layer: 1, max_layer: 2 },
        preferred_aps: pins.iter().map(|_| None).collect(),
        routing_tree: None,
        shape_ap_choices: Vec::new(),
        soft_ndr: false,
        adopted: false,
    };
    for p in pins {
        for &(_, x, y) in *p {
            n.bounding_box.update(Point::new(x, y));
        }
    }
    n
}

fn net_with(tree: GrTree, aps: &[Point]) -> GrNet {
    let mut n = net(&[&[(0, 0, 0)], &[(0, 0, 0)]]);
    n.preferred_aps = aps.iter().map(|&p| Some((p, Interval::point(0)))).collect();
    n.routing_tree = Some(tree);
    n
}

#[test]
fn net_route_segments() {
    let c = router_of(5900);
    let mut t = GrTree::new();
    let root = t.add(0, Point::new(1, 4));
    let up = t.add(2, Point::new(1, 4));
    let same = t.add(2, Point::new(1, 4));
    let far = t.add(2, Point::new(4, 4));
    t.nodes[root].children.push(up);
    t.nodes[up].children.push(same);
    t.nodes[up].children.push(far);
    let n = net_with(t, &[Point::new(1, 4), Point::new(4, 4)]);
    let r = c.net_route(&n);
    let seg = |s: &GSegment| (s.init_x, s.init_y, s.init_layer, s.final_x, s.final_y, s.final_layer);
    let got: Vec<_> = r.iter().map(seg).collect();
    assert_eq!(got, vec![(1500, 4500, 1, 1500, 4500, 2), (1500, 4500, 2, 1500, 4500, 3), (1500, 4500, 3, 4500, 4500, 3)]);
}

#[test]
fn a_local_net_exports_nothing() {
    let c = router_of(5900);
    let tree = || {
        let mut t = GrTree::new();
        let a = t.add(1, Point::new(2, 2));
        let b = t.add(2, Point::new(2, 2));
        t.nodes[a].children.push(b);
        t
    };
    assert!(c.net_route(&net_with(tree(), &[Point::new(2, 2), Point::new(2, 2)])).is_empty());
    assert_eq!(c.net_route(&net_with(tree(), &[Point::new(2, 2), Point::new(2, 3)])).len(), 1);
}

// ---- the grid ----

fn small_facts() -> DesignFacts {
    facts_of(3001, vec![metal("m1", 1, true, (200, 100, 15), ""), metal("m2", 2, false, (200, 100, 15), ""), metal("m3", 3, true, (200, 100, 15), "")])
}

fn graph(f: &DesignFacts) -> GridGraph {
    let d = Design::new(f, VIA_MULTIPLIER, 2, 3).unwrap();
    GridGraph::new(&d, 1).unwrap()
}

#[test]
fn tracks_per_row_and_capacity() {
    let g = graph(&small_facts());
    assert_eq!(g.grid_tracks[1], vec![5, 5, 5]);
    assert_eq!(capacity(&g, 1, 0, 0), 5.0);
    assert_eq!(g.edge(1, 0, 2).usable.len(), 0, "no edge past the last gcell");
    assert_eq!(capacity(&g, 0, 0, 0), 0.0, "below the min routing layer");
    let mut f = small_facts();
    f.layers[1].metal.as_mut().unwrap().tracks = (250, 0, 13);
    assert_eq!(graph(&f).grid_tracks[1], vec![4, 4, 5]);
    f.layers[1].metal.as_mut().unwrap().tracks = (250, 1, 13);
    assert_eq!(graph(&f).grid_tracks[1], vec![4, 4, 5]);
}

#[test]
fn obstacle_straddling_the_gridline_blocks_the_track() {
    let mut f = small_facts();
    let m2 = Some(ShapeLayer { is_routing: true, routing_level: 2 });
    f.design_obstructions = vec![Shape { layer: m2, rect: (250, 0, 550, 3000) }];
    let g = graph(&f);
    assert_eq!(capacity(&g, 1, 0, 0), 3.0);
    assert_eq!(capacity(&g, 1, 1, 0), 5.0, "the next column is untouched");
    let resources: f64 = (0..3).map(|x| (0..2).map(|y| capacity(&g, 1, x, y)).sum::<f64>()).sum();
    assert_eq!(resources.round() as i64, 3 * 2 + 5 * 2 + 5 * 2);
}

#[test]
fn obstacle_on_one_side_leaves_a_fraction() {
    let mut f = small_facts();
    let m2 = Some(ShapeLayer { is_routing: true, routing_level: 2 });
    f.design_obstructions = vec![Shape { layer: m2, rect: (250, 0, 550, 800) }];
    let g = graph(&f);
    assert_eq!(capacity(&g, 1, 0, 0), 0.0 + 1.0 + 0.7 + 0.7 + 1.0 + 1.0);
}

#[test]
fn range_search_rows_on_and_off_gridlines() {
    let g = graph(&small_facts());
    assert_eq!(g.range_search_rows(0, Interval::new(1000, 2000)).unwrap(), Interval::new(1, 1));
    assert_eq!(g.range_search_rows(0, Interval::new(999, 2001)).unwrap(), Interval::new(0, 2));
    assert_eq!(g.range_search_rows(0, Interval::new(3001, 3001)).unwrap(), Interval::new(3, 2), "a point on the die edge is empty");
    assert!(matches!(g.range_search_rows(0, Interval::new(3100, 3200)), Err(GridError::ShapeOutsideDie { dimension: 0, low: 3100, high: 3200 })), "past the die");
}

// ---- jumpers ----

fn via(name: &str, bottom: &str, top: &str) -> TechViaFacts {
    TechViaFacts {
        name: name.into(),
        bottom: bottom.into(),
        top: top.into(),
        boxes: vec![(bottom.to_string(), (0, 0, 100, 100)), (top.to_string(), (0, 0, 100, 100))],
        or_default: false,
        is_default: true,
    }
}

fn jumper_router() -> Cugr {
    let cut = |n: &str, l, h| metal(n, l, h, (200, 100, 30), &format!("{n}_cut"));
    let mut f = facts_of(6001, vec![cut("m1", 1, true), cut("m2", 2, false), cut("m3", 3, true)]);
    f.vias = vec![via("v12", "m1", "m2"), via("v23", "m2", "m3")];
    init(&f, &Vec::new(), 1, 3).unwrap()
}

/// Whether every edge that a jumper touches still has room, the demand before it given for one edge.
fn has_room(c: &Cugr, spare: f64, has_tree: bool) -> bool {
    let demands = c.grid.jumper_demands(&c.design, Point::new(1, 1), Point::new(3, 1), 3, has_tree).unwrap();
    let edges: Vec<(usize, Point)> = demands.iter().map(|d| (d.commit.layer, d.commit.p)).collect();
    edges.iter().all(|&(l, p)| {
        let mut more = 0.0;
        for d in demands.iter().filter(|d| d.commit.layer == l && d.commit.p == p) {
            let delta = d.commit.length as f64 / f64::from(d.commit.over);
            more += if d.credit { -delta } else { delta };
        }
        let room = if l == 0 && p == Point::new(1, 1) { spare } else { capacity(&c.grid, l, p.x as usize, p.y as usize) };
        more <= room
    })
}

// The wire two layers down is given back where the net holds a tree, so an edge with 0.05 to spare takes the
// 0.1 of a via end.
#[test]
fn jumper_resources_credit_the_original_wire() {
    let c = jumper_router();
    assert!(has_room(&c, 0.05, true), "+0.1 via, -1 wire on m1 (1,1)");
    assert!(!has_room(&c, 0.05, false), "no tree, no credit: 0.1 > 0.05");
}

// ---- the maze ----

#[test]
fn sparse_lines_merge_pins() {
    assert_eq!(lines(&vec![3, 3, 10, 24], 10, 0, 25), vec![0, 3, 10, 20, 24]);
    assert_eq!(lines(&vec![0, 1], 10, 1, 12), vec![0, 1, 11]);
    let mut g = SparseGrid::new(10, 3, 9, 2);
    g.step();
    assert_eq!(g.offset, Point::new(0, 0), "each offset advances modulo its interval");
}

fn node(p: (i32, i32), fixed: Interval, children: &[usize]) -> SteinerNode {
    SteinerNode { p: Point::new(p.0, p.1), fixed, children: children.to_vec() }
}

#[test]
fn maze_tree_clean_up() {
    let pin = |l| Interval::point(l);
    let mut t = SteinerTree {
        nodes: vec![
            node((0, 0), pin(1), &[1]),
            node((0, 0), pin(2), &[2]),
            node((0, 0), Interval::default(), &[3]),
            node((3, 0), Interval::default(), &[4]),
            node((6, 0), pin(1), &[]),
        ],
        root: 0,
        root_branch: 0,
    };
    clean_up(&mut t);
    assert_eq!(t.nodes[0].fixed, pin(1), "the parent keeps its own layers");
    assert_eq!(t.nodes[0].children, vec![4], "folded twice, then (3,0) skipped: straight to (6,0)");
}

fn pops(keys: &[i32]) -> Vec<usize> {
    let order = LeastKeyFirst { keys: keys.to_vec() };
    let mut h = LibcxxHeap::new();
    for i in 0..keys.len() {
        h.push(i, &order);
    }
    let mut out = Vec::new();
    while !h.is_empty() {
        out.push(h.top());
        h.pop(&order);
    }
    out
}

#[test]
fn equal_keys_pop_in_libcxx_order() {
    assert_eq!(pops(&[5, 5, 5, 5]), vec![0, 1, 3, 2]);
    assert_eq!(pops(&[3, 1, 2, 0]), vec![3, 1, 2, 0]);
    assert_eq!(pops(&[2, 2, 1, 2, 2, 1, 2]), vec![2, 5, 1, 3, 6, 4, 0]);
}

// ---- patterns ----

#[test]
fn shape_access_point_prefers_access_then_distance_then_order() {
    let c = router_of(6001);
    let flags = open(&c.grid);
    let mut n = net(&[&[(0, 0, 0), (0, 5, 5)], &[(0, 4, 4), (1, 4, 4)]]);
    let mut log = Vec::new();
    let map = select_access_points(&mut n, &c.grid, &flags, &mut log).unwrap();
    assert_eq!(n.preferred_aps[0].unwrap().0, Point::new(0, 0));
    assert_eq!(n.preferred_aps[1].unwrap().0, Point::new(4, 4));
    assert_eq!(n.preferred_aps[1].unwrap().1, Interval::new(0, 1), "both layers at the chosen cell");
    assert_eq!(map.len(), 2);
    let mut n = net(&[&[(0, 1, 2), (0, 3, 2)], &[(0, 2, 0), (0, 2, 4)]]);
    select_access_points(&mut n, &c.grid, &flags, &mut log).unwrap();
    assert_eq!(n.preferred_aps[0].unwrap().0, Point::new(1, 2));
    assert_eq!(n.preferred_aps[1].unwrap().0, Point::new(2, 0));
}

#[test]
fn a_fractional_edge_is_not_accessible() {
    let c = router_of(6001);
    let mut flags = open(&c.grid);
    flags[1][2][2] = false;
    flags[1][2][1] = false;
    let mut n = net(&[&[(1, 2, 2), (1, 0, 0)], &[(1, 4, 4)]]);
    select_access_points(&mut n, &c.grid, &flags, &mut Vec::new()).unwrap();
    assert_eq!(n.preferred_aps[0].unwrap().0, Point::new(0, 0));
}

// A node pinned to the second of four layers, vias at 4 each, a child at 13 on the second and 5 on the fourth:
// 13 and 8 + 5 tie, and the second layer keeps its own path.
#[test]
fn the_top_down_fill_keeps_a_layer_on_an_exact_tie() {
    let max = i64::MAX;
    let kids = vec![vec![Choice { cost: max, path: -1 }, Choice { cost: 13, path: 0 }, Choice { cost: max, path: -1 }, Choice { cost: 5, path: 0 }]];
    let t = settle_layers(&kids, &vec![4i64, 4, 4], Interval::point(1), LayerRange { min_layer: 1, max_layer: 3 }, 4, 0, max);
    assert_eq!(t.costs[1], 13);
    assert_eq!(t.best_paths[1], vec![BestPath { path: 0, layer: 1 }], "the tie keeps its own path");
}

#[test]
fn l_shape_mids_in_order() {
    let mut dag = Dag::new();
    let s = dag.add(Point::new(1, 1), Interval::default(), false);
    let e = dag.add(Point::new(4, 3), Interval::default(), false);
    let a = dag.add(Point::new(1, 5), Interval::default(), false);
    dag.construct_paths(s, e);
    dag.construct_paths(s, a);
    let mids = &dag.nodes[s].paths[0];
    assert_eq!((dag.nodes[mids[0]].p, dag.nodes[mids[1]].p), (Point::new(4, 1), Point::new(1, 3)));
    assert!(dag.nodes[mids[0]].optional);
    assert_eq!(dag.nodes[s].paths[1], vec![a], "aligned: straight");
}

#[test]
fn steiner_root_and_colocated_merge() {
    let n = net(&[&[(1, 0, 0)], &[(1, 3, 0)], &[(1, 3, 3)]]);
    let map: AccessPointMap = [(0, 0), (3, 0), (3, 3)].iter().map(|&(x, y)| AccessPoint { p: Point::new(x, y), layers: Interval::point(1) }).collect();
    let branches: Vec<TreeBranch> = [(0, 0, 3), (3, 0, 3), (3, 3, 3), (3, 0, 3)].iter().map(|&(x, y, n)| TreeBranch { x, y, n }).collect();
    let t = construct_steiner_tree(&n, &map, &branches).unwrap();
    assert_eq!(t.root_branch, 0);
    assert_eq!(t.nodes.len(), 3, "branch 3 is co-located with branch 1 and merged");
    let order: Vec<Point> = t.preorder().iter().map(|&i| t.nodes[i].p).collect();
    assert_eq!(order, vec![Point::new(0, 0), Point::new(3, 0), Point::new(3, 3)]);
    assert_eq!(t.nodes[t.root].fixed, Interval::point(1));
}

#[test]
fn neutral_order_is_stable_by_slack_then_hp() {
    let mut c = router_of(6001);
    let slacks = [0.0f32, 0.0, -1.0, 0.0];
    for (k, hp) in [3, 1, 9, 1].into_iter().enumerate() {
        let mut n = net(&[&[(1, 0, 0)], &[(1, hp, 0)]]);
        n.index = k;
        c.nets.push(n);
    }
    let ranks: Vec<i32> = slacks.iter().map(|s| slacks.iter().filter(|t| *t < s).count() as i32).collect();
    let mut order: Vec<usize> = (0..4).collect();
    c.sort_net_indices(&ranks, &mut order);
    assert_eq!(order, vec![2, 1, 3, 0]);
}

// The wire runs on the only horizontal layer that is routed; the tree starts on the pin's own layer, climbs,
// runs and drops.
#[test]
fn two_pin_route_climbs_to_the_routable_layer_and_back_down() {
    let c = router_of(6001);
    let mut n = net(&[&[(0, 1, 2)], &[(0, 4, 2)]]);
    let map = select_access_points(&mut n, &c.grid, &open(&c.grid), &mut Vec::new()).unwrap();
    let input = steiner_input(&n, &map);
    let branches: Vec<TreeBranch> = input.xs.iter().zip(&input.ys).map(|(&x, &y)| TreeBranch { x, y, n: 1 }).collect();
    let steiner = construct_steiner_tree(&n, &map, &branches).unwrap();
    let dag = construct_routing_dag(&steiner);
    let wires = dag
        .nodes
        .iter()
        .map(|d| d.paths.iter().map(|p| p.iter().map(|_| vec![3i64, 3, 3]).collect()).collect())
        .collect();
    let costs = RouteCosts { wires, vias: dag.nodes.iter().map(|_| vec![4i64, 4]).collect(), zero: 0, max: i64::MAX };
    let route = run(&dag, &costs, &layer_rules(&c.grid, &n), "n").unwrap();
    let t = &route.tree;
    let s: Vec<(i32, i32, i32)> = t.preorder().iter().map(|&i| (t.nodes[i].layer, t.nodes[i].p.x, t.nodes[i].p.y)).collect();
    assert_eq!(s, vec![(0, 1, 2), (2, 1, 2), (2, 4, 2), (0, 4, 2)]);
    let mut commits: Vec<Commit> = Vec::new();
    c.grid.commit_tree(&c.design, t, false, false, &mut commits).unwrap();
    for x in 1..4 {
        assert!(commits.iter().any(|m| m.layer == 2 && m.p == Point::new(x, 2) && m.length == i128::from(m.over)));
    }
}

// ---- restoring ----

fn seg(a: (i32, i32, i32), b: (i32, i32, i32)) -> GSegment {
    GSegment::new(a.0, a.1, a.2, b.0, b.1, b.2)
}

#[test]
fn tree_from_route_bfs_from_the_smallest_cell() {
    let c = router_of(6001);
    let route = vec![seg((1500, 1500, 3), (3500, 1500, 3)), seg((1500, 1500, 2), (1500, 1500, 3)), seg((3500, 1500, 3), (3500, 1500, 4))];
    let t = build_tree_from_route(&c.grid, &route).unwrap();
    let order: Vec<(i32, i32, i32)> = t.preorder().iter().map(|&i| (t.nodes[i].layer, t.nodes[i].p.x, t.nodes[i].p.y)).collect();
    assert_eq!(order, vec![(1, 1, 1), (2, 1, 1), (2, 2, 1), (2, 3, 1)]);
    assert!(build_tree_from_route(&c.grid, &vec![seg((500, 500, 3), (2500, 2500, 3))]).is_none(), "diagonal");
    assert!(build_tree_from_route(&c.grid, &vec![seg((500, 500, 2), (2500, 500, 3))]).is_none(), "a wire changing layer");
}

fn total(commits: &[Commit], layer: usize, p: Point) -> f64 {
    commits.iter().filter(|c| c.layer == layer && c.p == p).map(|c| c.length as f64 / f64::from(c.over)).sum()
}

#[test]
fn restore_binds_first_covered_cell_and_fails_late() {
    let mut c = router_of(6001);
    c.nets.push(net(&[&[(0, 1, 1), (1, 1, 1)], &[(0, 3, 1)]]));
    let route = vec![seg((1500, 1500, 1), (1500, 1500, 3)), seg((1500, 1500, 3), (3500, 1500, 3)), seg((3500, 1500, 1), (3500, 1500, 3))];
    let mut commits = Vec::new();
    assert!(matches!(c.restore_net_route(0, &route, &mut commits).unwrap(), Restore::Done));
    let n = &c.nets[0];
    assert_eq!(n.preferred_aps[0].unwrap(), (Point::new(1, 1), Interval::point(0)), "the first candidate, (0,1,1), is on the tree");
    assert!(n.adopted);
    assert!(!commits.is_empty());
    assert!(commits.iter().all(|m| m.length >= 0));
    let short = vec![seg((1500, 1500, 1), (1500, 1500, 3)), seg((1500, 1500, 3), (2500, 1500, 3))];
    let first = commits.len();
    match c.restore_net_route(0, &short, &mut commits).unwrap() {
        Restore::Fail(why) => assert_eq!(why, "pin 1"),
        Restore::Done => panic!("the route misses a pin"),
    }
    assert!(c.nets[0].routing_tree.is_none());
    assert_eq!(commits.len(), 2 * first);
    for m in &commits {
        assert!(total(&commits, m.layer, m.p).abs() < 1e-12, "the old demand was released");
    }
}

#[test]
fn an_adopted_wrong_way_span_spreads_over_the_flanks() {
    let c = router_of(6001);
    let mut t = GrTree::new();
    let a = t.add(2, Point::new(1, 1));
    let b = t.add(2, Point::new(1, 3));
    t.nodes[a].children.push(b);
    let mut commits = Vec::new();
    assert_eq!(c.grid.commit_tree(&c.design, &t, false, false, &mut commits), Err(CommitError::WrongWayWire { layer: 2 }), "native: an error");
    commits.clear();
    c.grid.commit_tree(&c.design, &t, false, true, &mut commits).unwrap();
    assert_eq!(commits.len(), 4);
    assert!(commits.iter().all(|m| m.layer == 2 && m.length > 0 && m.over > 0));
}

fn loaded(name: &str, route: Option<Vec<GSegment>>) -> LoadedNet {
    LoadedNet { name: name.into(), is_known: true, is_detailed: false, route }
}

fn named(name: &str) -> GrNet {
    let mut n = net(&[&[(0, 1, 1), (1, 1, 1)], &[(0, 3, 1)]]);
    n.name = name.into();
    n
}

#[test]
fn routes_are_taken_over_or_refused() {
    let whole = || vec![seg((1500, 1500, 1), (1500, 1500, 3)), seg((1500, 1500, 3), (3500, 1500, 3)), seg((3500, 1500, 1), (3500, 1500, 3))];
    let short = || vec![seg((1500, 1500, 1), (1500, 1500, 3)), seg((1500, 1500, 3), (2500, 1500, 3))];
    let router = || {
        let mut c = router_of(6001);
        c.nets.push(named("c"));
        c.nets.push(named("a"));
        c
    };
    let mut commits = Vec::new();
    let mut c = router();
    let nets = vec![loaded("a", Some(whole())), loaded("b", None), loaded("c", Some(short()))];
    let v = restore_cugr_for_repair(false, false, &nets, &mut c, &mut commits).unwrap();
    assert_eq!(v.iter().map(|a| a.net).collect::<Vec<_>>(), vec![0, 2]);
    assert_eq!((&v[0].outcome, &v[1].outcome), (&Restore::Done, &Restore::Fail("pin 1".into())));
    assert!(c.nets[1].adopted && !c.nets[0].adopted, "a net is found by its name");
    assert!(matches!(restore_cugr_for_repair(true, true, &nets, &mut c, &mut commits), Err(AdoptError::AccessPoints)));
    assert!(matches!(restore_cugr_for_repair(false, true, &nets, &mut c, &mut commits), Err(AdoptError::Timed)));
    let mut c = router();
    let lost = vec![loaded("a", Some(whole())), loaded("x", Some(whole()))];
    assert!(matches!(restore_cugr_for_repair(false, false, &lost, &mut c, &mut commits), Err(AdoptError::NotHeld { net }) if net == "x"));
    assert!(c.nets[1].adopted, "what came before stays");
    let mut detailed = vec![loaded("c", None), loaded("x", Some(whole()))];
    detailed[0].is_detailed = true;
    assert!(matches!(restore_cugr_for_repair(false, false, &detailed, &mut c, &mut commits), Err(AdoptError::Detailed { net }) if net == "c"));
    let mut unknown = vec![loaded("z", Some(whole())), loaded("y", Some(whole())), loaded("c", None)];
    unknown[0].is_known = false;
    unknown[1].is_known = false;
    unknown[2].is_known = false;
    assert!(matches!(restore_cugr_for_repair(false, false, &unknown, &mut c, &mut commits), Err(AdoptError::Unknown { net }) if net == "y"), "by name");
}

// The old tree of the first net cannot be released, so that the second net's missing place is not come to.
#[test]
fn the_first_net_that_fails_is_named() {
    let mut c = router_of(6001);
    c.nets.push(named("a"));
    let mut t = GrTree::new();
    let (a, b) = (t.add(2, Point::new(1, 1)), t.add(2, Point::new(1, 3)));
    t.nodes[a].children.push(b);
    c.nets[0].routing_tree = Some(t);
    let route = vec![seg((1500, 1500, 3), (3500, 1500, 3))];
    let nets = vec![loaded("a", Some(route.clone())), loaded("x", Some(route))];
    let r = restore_cugr_for_repair(false, false, &nets, &mut c, &mut Vec::new());
    assert!(matches!(r, Err(AdoptError::Restoring { net, error: StageError::Commit(CommitError::WrongWayWire { layer: 2 }) }) if net == "a"));
}

// The root's children stand before each other's in any order, and what is not reached may be anything.
#[test]
fn a_tree_is_walked_in_the_order_of_its_links() {
    let mut t = GrTree::new();
    for k in 0..6 {
        t.add(2, Point::new(k, 1));
    }
    t.nodes[0].children = vec![4, 2];
    t.nodes[4].children = vec![3];
    t.nodes[3].children = vec![1];
    t.nodes[5].children = vec![5];
    assert_eq!(t.preorder(), vec![0, 4, 3, 1, 2]);
    assert_eq!(t.edges(), vec![(0, 4), (0, 2), (4, 3), (3, 1)]);
    assert!(GrTree::new().preorder().is_empty());
}

#[test]
fn a_tree_taken_up_gives_back_what_it_laid_down() {
    let c = router_of(6001);
    let mut t = GrTree::new();
    let (root, end, via) = (t.add(2, Point::new(3, 1)), t.add(2, Point::new(1, 1)), t.add(1, Point::new(3, 1)));
    t.nodes[root].children = vec![via, end];
    let mut commits = Vec::new();
    c.grid.commit_tree(&c.design, &t, false, false, &mut commits).unwrap();
    let first = commits.len();
    assert!(first > 0);
    c.grid.commit_tree(&c.design, &t, true, false, &mut commits).unwrap();
    assert_eq!(commits.len(), 2 * first);
    for k in 0..first {
        assert_eq!(commits[first + k], Commit { length: -commits[k].length, ..commits[k] });
    }
    assert_eq!(commits.iter().map(|m| m.length).sum::<i128>(), 0);
}

#[test]
fn a_refused_tree_is_taken_up_as_far_as_it_was_laid() {
    let c = router_of(6001);
    let mut t = GrTree::new();
    let (root, end, wrong) = (t.add(2, Point::new(3, 1)), t.add(2, Point::new(1, 1)), t.add(2, Point::new(1, 2)));
    t.nodes[root].children = vec![end];
    t.nodes[end].children = vec![wrong];
    let mut commits = Vec::new();
    assert_eq!(c.grid.commit_tree(&c.design, &t, false, false, &mut commits), Err(CommitError::WrongWayWire { layer: 2 }));
    assert_eq!(c.grid.commit_tree(&c.design, &t, true, false, &mut commits), Err(CommitError::WrongWayWire { layer: 2 }));
    assert_eq!(commits.iter().map(|m| m.length).collect::<Vec<_>>(), vec![1, 1, -1, -1]);
}

// The last gridline is one past the last cell. A via there has no edge beside it, but it only comes to that where
// every pin is met.
#[test]
fn a_via_on_the_last_gridline_misses_the_pins() {
    let mut c = router_of(6001);
    c.nets.push(net(&[&[(0, 1, 1)], &[(0, 3, 1)]]));
    let route = vec![seg((1500, 1500, 1), (1500, 1500, 3)), seg((1500, 1500, 3), (3500, 1500, 3)), seg((3500, 1500, 1), (3500, 1500, 3))];
    let mut commits = Vec::new();
    assert_eq!(c.restore_net_route(0, &route, &mut commits).unwrap(), Restore::Done);
    let first = commits.len();
    let last = *c.grid.gridlines[0].last().unwrap();
    let lone = vec![seg((last, 1500, 1), (last, 1500, 2))];
    assert_eq!(c.restore_net_route(0, &lone, &mut commits).unwrap(), Restore::Fail("pin 0".into()));
    assert!(c.nets[0].routing_tree.is_none());
    assert_eq!(commits.len(), 2 * first, "the old tree is released");
}

// A wire may end one past the last cell: it lays a track on the last cell's edge.
#[test]
fn a_wire_to_the_last_gridline_is_committed() {
    let c = router_of(6001);
    let far = c.grid.x_size as i32;
    let mut t = GrTree::new();
    let (a, b) = (t.add(2, Point::new(far - 1, 1)), t.add(2, Point::new(far, 1)));
    t.nodes[a].children = vec![b];
    let mut commits = Vec::new();
    c.grid.commit_tree(&c.design, &t, false, false, &mut commits).unwrap();
    assert_eq!(commits, vec![Commit { layer: 2, p: Point::new(far - 1, 1), length: 1, over: 1 }]);
}
