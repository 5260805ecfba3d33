use vyges_grt::checks3d::{
    check_route_3d, ensure_pin_coverage, get_overflow_3d, three_d_via, Cell3D, Overflow3D, RouteDefect, RoutedEdge, RoutedNode, ViaStackEdge,
};
use vyges_grt::fillvia::{fill_via, get_via_stack_range, EdgeFill, EndClaim, NoPreviousRouting, ViaCounts, ViaEdge, ViaNet, ViaNode, ViaPin, NO_EDGE};
use vyges_grt::findrouting::{add_guides_for_local_net, add_remaining_guides, connect_pad_pins, connect_top_level_pins, finish_routes, merge_segments, RemainingNet, Routes};
use vyges_grt::full3d::{convert_edge_to_full_3d, convert_to_full_3d_type2, push_falling, push_rising, Edge3D, Point3D, RouteType};
use vyges_grt::GSegment;

fn p(x: i16, y: i16, layer: i16) -> Point3D {
    Point3D { x, y, layer }
}

// Every step of a converted path moves in the plane or by one layer, at the next point's place.
#[test]
fn a_path_is_made_full() {
    let mut e = Edge3D { len: 2, route_type: RouteType::LRoute, routelen: 2, grids: vec![p(0, 0, 1), p(1, 0, 3), p(1, 1, 2), p(9, 9, 9)] };
    convert_edge_to_full_3d(&mut e, 5);
    assert_eq!(e.grids, vec![p(0, 0, 1), p(1, 0, 1), p(1, 0, 2), p(1, 0, 3), p(1, 1, 3), p(1, 1, 2)]);
    assert_eq!((e.routelen, e.route_type), (5, RouteType::MazeRoute));
    for w in e.grids.windows(2) {
        let planar = (w[0].x - w[1].x).abs() + (w[0].y - w[1].y).abs();
        let up = (w[0].layer - w[1].layer).abs();
        assert!((planar == 0 || up == 0) && planar + up == 1);
    }
    let mut nets = vec![vec![Edge3D { len: 0, route_type: RouteType::NoRoute, routelen: 1, grids: vec![p(0, 0, 1), p(0, 0, 4)] }]];
    convert_to_full_3d_type2(&mut nets, 5);
    assert_eq!(nets[0][0], Edge3D { len: 0, route_type: RouteType::NoRoute, routelen: 1, grids: vec![p(0, 0, 1), p(0, 0, 4)] });
    let mut out = Vec::new();
    push_rising(&mut out, 1, 2, 0, 2);
    push_falling(&mut out, 1, 2, 3, 1);
    assert_eq!(out.iter().map(|q| q.layer).collect::<Vec<_>>(), vec![0, 1, 3, 2]);
}

fn edge(len: i32, grids: Vec<Point3D>) -> RoutedEdge {
    RoutedEdge { len, routelen: grids.len() as i32 - 1, n1: 0, n2: 1, grids }
}

#[test]
fn vias_are_counted_on_edges_with_length() {
    let g = vec![p(0, 0, 1), p(0, 0, 2), p(1, 0, 2), p(1, 0, 1)];
    assert_eq!(three_d_via(&[edge(1, g.clone()), edge(0, g.clone()), edge(-1, g)]), 2);
}

// A total of zero means that no cell is over its capacity.
#[test]
fn overflow_is_summed_by_direction() {
    let c = |horizontal: bool, usage: i32, capacity: i32| Cell3D { horizontal, usage, capacity };
    assert_eq!(
        get_overflow_3d(&[c(true, 5, 3), c(true, 9, 8), c(false, 4, 4), c(false, 7, 2)]),
        Overflow3D { horizontal: 3, vertical: 5, max_horizontal: 2, max_vertical: 5, total: 8, total_usage: 25 }
    );
    assert_eq!(get_overflow_3d(&[c(true, 3, 3), c(false, 0, 1)]).total, 0);
}

fn node(x: i16, y: i16, bot: i16, top: i16, pin: Option<i16>) -> RoutedNode {
    RoutedNode { x, y, bot_layer: bot, top_layer: top, pin_layer: pin }
}

// A route without defects is a connected path between its nodes.
#[test]
fn defects_are_found() {
    let nodes = [node(0, 0, 1, 2, Some(1)), node(1, 0, 1, 1, None)];
    assert!(check_route_3d(&nodes, &[edge(1, vec![p(0, 0, 1), p(1, 0, 1)])]).is_empty());
    let bad = [node(0, 0, 2, 3, Some(1)), node(1, 0, 1, 1, Some(2))];
    assert_eq!(check_route_3d(&bad, &[]), vec![RouteDefect::FloatingPin { node: 0 }, RouteDefect::FloatingPin { node: 1 }]);
    assert_eq!(
        check_route_3d(&nodes, &[edge(0, vec![]), edge(-1, vec![p(5, 0, 1), p(1, 0, -1), p(2, 0, -1)])]),
        vec![
            RouteDefect::StartsElsewhere { edge: 1 },
            RouteDefect::EndsElsewhere { edge: 1 },
            RouteDefect::NotAPath { edge: 1, step: 0, distance: 6 },
            RouteDefect::NegativeLayer { edge: 1, point: 1, layer: -1 },
            RouteDefect::NegativeLayer { edge: 1, point: 2, layer: -1 },
        ]
    );
}

#[test]
fn uncovered_pins_get_stacks() {
    let t = [node(0, 0, 1, 1, Some(1)), node(1, 0, 4, 4, Some(4)), node(5, 5, 1, 1, Some(1)), node(1, 0, 3, 3, Some(3))];
    let s = ensure_pin_coverage(&t, &[edge(1, vec![p(0, 0, 2), p(1, 0, 2), p(1, 0, 3)])], 6);
    assert_eq!(
        s,
        vec![
            ViaStackEdge { pin: 0, routelen: 1, grids: vec![p(0, 0, 1), p(0, 0, 2)] },
            ViaStackEdge { pin: 1, routelen: 1, grids: vec![p(1, 0, 3), p(1, 0, 4)] },
            ViaStackEdge { pin: 2, routelen: 5, grids: (1..=6).map(|l| p(5, 5, l)).collect() },
        ]
    );
}

fn via_node(x: i16, bot: i16, top: i16, h_id: i32, l_id: i32, alias: usize) -> ViaNode {
    ViaNode { x, y: 0, bot_layer: bot, top_layer: top, h_id, l_id, stack_alias: alias }
}

fn via_edge(len: i32, grids: Vec<Point3D>) -> ViaEdge {
    ViaEdge { len, n1: 0, n2: 1, n1a: 0, n2a: 1, route_type: RouteType::LRoute, routelen: grids.len() as i32 - 1, grids }
}

#[test]
fn stacks_are_filled_at_both_ends() {
    let pins = vec![ViaPin { x: 0, y: 0, layer: 0 }, ViaPin { x: 1, y: 0, layer: 3 }];
    assert_eq!(get_via_stack_range(&pins, &via_node(1, 0, 0, 0, 0, 0)), (3, 3));
    assert_eq!(get_via_stack_range(&pins, &via_node(7, 0, 0, 0, 0, 0)), (i16::MAX, -1));
    let nodes = vec![via_node(0, 1, 1, 0, 0, 0), via_node(1, 1, 1, 0, 0, 1)];
    let mut nets = vec![ViaNet { num_terminals: 2, nodes, edges: vec![via_edge(1, vec![p(0, 0, 1), p(1, 0, 1)])], pins }];
    let (counts, decided) = fill_via(&mut nets, 5).unwrap();
    // up from the pin to the wire; then, the wire's own layer being skipped, up to the pin
    assert_eq!(nets[0].edges[0].grids, vec![p(0, 0, 0), p(0, 0, 1), p(1, 0, 1), p(1, 0, 2), p(1, 0, 3)]);
    assert_eq!((nets[0].edges[0].routelen, nets[0].edges[0].route_type), (4, RouteType::MazeRoute));
    assert_eq!(counts, ViaCounts { pin_nodes: 3, steiner_nodes: 0 });
    let claim = |node: usize| Some(EndClaim { node, terminal: true });
    assert_eq!(decided, vec![vec![EdgeFill::Positive { first: claim(0), second: claim(1), points: 5 }]]);
}

#[test]
fn edges_without_length_get_one_stack() {
    let nodes = vec![via_node(0, 5, -1, NO_EDGE, NO_EDGE, 1), via_node(0, 1, 2, NO_EDGE, NO_EDGE, 1)];
    let pins = vec![ViaPin { x: 0, y: 0, layer: 3 }];
    let mut nets = vec![ViaNet { num_terminals: 2, nodes, edges: vec![via_edge(0, vec![])], pins }];
    let (_, decided) = fill_via(&mut nets, 5).unwrap();
    assert_eq!(decided[0][0], EdgeFill::Zero { effective: (1, 1), bottom: 1, top: 3 });
    assert_eq!(nets[0].edges[0].grids, vec![p(0, 0, 1), p(0, 0, 2), p(0, 0, 3)]);
    let bare = vec![via_node(0, 5, -1, NO_EDGE, NO_EDGE, 0), via_node(0, 5, -1, NO_EDGE, NO_EDGE, 1)];
    let mut nets = vec![ViaNet { num_terminals: 0, nodes: bare, edges: vec![via_edge(0, vec![]), via_edge(1, vec![p(0, 0, 1)])], pins: vec![] }];
    assert_eq!(fill_via(&mut nets, 5), Err(NoPreviousRouting { net: 0, edge: 1 }));
    nets[0].edges.pop();
    assert_eq!(fill_via(&mut nets, 5).unwrap().1[0][0], EdgeFill::ZeroSkipped { effective: (0, 1) });
}

fn seg(x0: i32, y0: i32, l0: i32, x1: i32, y1: i32, l1: i32) -> GSegment {
    GSegment::new(x0, y0, l0, x1, y1, l1)
}

#[test]
fn local_nets_get_a_stack() {
    assert_eq!(add_guides_for_local_net("n", &[(5, 5, 3), (5, 5, 2)], 1, 9).unwrap(), vec![seg(5, 5, 1, 5, 5, 2), seg(5, 5, 2, 5, 5, 3), seg(5, 5, 3, 5, 5, 4)]);
    assert_eq!(add_guides_for_local_net("n", &[(5, 5, 3)], 2, 3).unwrap(), vec![seg(5, 5, 2, 5, 5, 3)]);
    assert_eq!(add_guides_for_local_net("n", &[(5, 5, 3), (6, 5, 2)], 1, 9).unwrap_err().net, "n");
    assert_eq!(connect_top_level_pins(&[(1, 1, 2), (3, 3, 6)], 4), vec![seg(3, 3, 4, 3, 3, 5), seg(3, 3, 5, 3, 3, 6)]);
}

fn net(name: &str, made: bool, pins: Vec<(i32, i32, i32)>) -> RemainingNet {
    RemainingNet { name: name.into(), made, pins }
}

#[test]
fn every_made_net_gets_guides() {
    let mut r = Routes::new();
    let i = r.entry("routed");
    r.extend(i, vec![seg(0, 0, 2, 9, 0, 2)]);
    let nets = [net("routed", true, vec![(9, 0, 6)]), net("local", true, vec![(5, 5, 1)]), net("skipped", false, vec![(0, 0, 1), (9, 9, 1)])];
    assert!(add_remaining_guides(&mut r, &nets, 1, 9, 4).is_ok());
    connect_pad_pins(&mut r);
    assert_eq!(r.0.len(), 2);
    let routed = r.find("routed").unwrap();
    assert_eq!(r.0[routed].1.len(), 3);
    let local = r.find("local").unwrap();
    assert_eq!(r.0[local].1, vec![seg(5, 5, 1, 5, 5, 2)]);
    assert_eq!(r.find("skipped"), None);
    let far = [net("far", true, vec![(0, 0, 1), (9, 9, 1)])];
    assert_eq!(add_remaining_guides(&mut r, &far, 1, 9, 4).unwrap_err().net, "far");
}

// Merging joins what meets end to end and keeps the route.
#[test]
fn segments_merge_where_two_meet() {
    let mut r = vec![seg(0, 0, 2, 5, 0, 2), seg(5, 0, 2, 9, 0, 2), seg(9, 0, 2, 9, 4, 2)];
    merge_segments(&[(0, 0, 2)], &mut r, 1);
    assert_eq!(r, vec![seg(0, 0, 2, 9, 0, 2), seg(9, 0, 2, 9, 4, 2)]);
    let mut pinned = vec![seg(0, 0, 2, 5, 0, 2), seg(5, 0, 2, 9, 0, 2)];
    merge_segments(&[(5, 0, 2)], &mut pinned, 1);
    assert_eq!(pinned.len(), 2, "a pin stands where they meet");
    let mut low = vec![seg(0, 0, 2, 5, 0, 2), seg(5, 0, 2, 9, 0, 2)];
    merge_segments(&[], &mut low, 3);
    assert_eq!(low.len(), 2, "below the lowest level nothing merges");
}

#[test]
fn routes_are_finished() {
    let mut r = Routes::new();
    let i = r.entry("a");
    r.extend(i, vec![seg(0, 0, 2, 5, 0, 2), seg(5, 0, 2, 9, 0, 2)]);
    assert!(finish_routes(&mut r, &[net("a", true, vec![(0, 0, 2)]), net("b", true, vec![(3, 3, 1)])], 1, 9, 9, 1).is_ok());
    assert_eq!(r.0[r.find("a").unwrap()].1, vec![seg(0, 0, 2, 9, 0, 2)]);
    assert_eq!(r.0[r.find("b").unwrap()].1, vec![seg(3, 3, 1, 3, 3, 2)]);
}
