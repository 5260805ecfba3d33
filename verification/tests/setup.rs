use vyges_grt::adjust::{
    adjust_tile_set, apply_obstruction_adjustment, compute_region_adjustments, compute_tile_reduce, compute_user_global_adjustments, compute_user_layer_adjustments,
    init_blocked_intervals, region_tiles, save_resources_before_adjustments, BlockedMap, EdgeState, IntervalSet, LayerScale, RegionCaps, RegionOutsideDie, RouterEdges,
};
use vyges_grt::capacity::{
    capacity_edge_order, check_adjacent_layers_direction, compute_gcell_capacity, find_level, init_edges_capacity_per_layer, init_routing_layers, mirror_grid_to_fast_route,
    set_capacities, CapacityLayer, Direction, LayerError, RoutingLayer, INFINITE_CAPACITY,
};
use vyges_grt::driver::{compute_max_routing_layer, get_min_max_layer, has_routable_nets, layer_resources, report_resources, ResourceLayer};
use vyges_grt::init::CoreGrid;
use vyges_grt::tracks::RoutingTracks;
use vyges_grt::Rect;

fn layer(name: &str, level: i32, direction: Option<Direction>) -> RoutingLayer {
    RoutingLayer { name: name.into(), routing_level: level, direction, has_track_grid: true, is_backside: false }
}

const H: Option<Direction> = Some(Direction::Horizontal);
const V: Option<Direction> = Some(Direction::Vertical);

/// Three by three cells of 100, the last column and row reaching to 320.
fn grid() -> CoreGrid {
    CoreGrid { area: Rect::new(0, 0, 320, 320), tile_size: 100, x_grids: 3, y_grids: 3, num_layers: 2, perfect_regular_x: false, perfect_regular_y: false }
}

fn tracks(level: i32) -> RoutingTracks {
    RoutingTracks { layer_index: level, track_pitch: 20, location: 10, num_tracks: 16 }
}

#[test]
fn the_routed_levels() {
    assert_eq!(compute_max_routing_layer(&[true, true, false, true]), Some(2));
    assert_eq!(compute_max_routing_layer(&[false, true]), None);
    assert_eq!(get_min_max_layer(-1, &[true, true, true], 2, 0, 0), Some((3, 2, 3)));
    assert_eq!(get_min_max_layer(4, &[true], 2, 1, 6), Some((4, 1, 6)), "the clock's levels widen the range");
    assert_eq!(get_min_max_layer(4, &[true], 2, 3, -1), Some((4, 2, 4)));
    assert_eq!(get_min_max_layer(-1, &[false], 2, 0, 0), None);
    assert!(has_routable_nets(&[(1, 0), (1, 1)]));
    assert!(!has_routable_nets(&[(1, 0), (0, 1), (0, 0)]));
}

#[test]
fn layers_are_numbered_or_refused() {
    let layers = vec![layer("m1", 1, H), layer("side", 0, None), layer("m2", 2, V)];
    let v = init_routing_layers(&layers, 1, 2).unwrap();
    assert_eq!(v.iter().map(|(i, l)| (*i, l.name.as_str())).collect::<Vec<_>>(), vec![(1, "m1"), (2, "m2")]);
    assert!(matches!(init_routing_layers(&[layer("m1", 1, None)], 1, 2), Err(LayerError::NoDirection { layer }) if layer == "m1"));
    let mut bare = layer("m3", 3, H);
    bare.has_track_grid = false;
    assert!(matches!(init_routing_layers(&[bare.clone()], 1, 3), Err(LayerError::NoTrackGrid { layer }) if layer == "m3"));
    assert!(init_routing_layers(&[bare], 1, 2).is_ok(), "outside the range no tracks are needed");
    assert_eq!(LayerError::NoDirection { layer: "m1".into() }.message(), "layer m1 does not have a valid direction");
    let same = vec![layer("a", 1, H), layer("b", 2, H)];
    match check_adjacent_layers_direction(&same, 1, 2) {
        Err(LayerError::SameDirection { a, b, direction }) => assert_eq!((a.as_str(), b.as_str(), direction), ("a", "b", Direction::Horizontal)),
        other => panic!("{other:?}"),
    }
    assert!(check_adjacent_layers_direction(&same, 2, 2).is_ok());
    let mut back = same;
    back[1].is_backside = true;
    assert!(check_adjacent_layers_direction(&back, 1, 2).is_ok());
    assert_eq!(find_level(&layers, 2), Some(2));
    assert_eq!(find_level(&layers, 5), None);
}

// Tracks at 10, 30, .., 310: five per cell of 100, six in the last of 120. A track on a cell's upper side belongs
// to the next cell.
#[test]
fn a_cell_holds_the_tracks_inside_it() {
    let g = grid();
    assert_eq!(compute_gcell_capacity(&g, 0, 0, 10, 20, 16, true), 5);
    assert_eq!(compute_gcell_capacity(&g, 0, 2, 10, 20, 16, true), 6);
    assert_eq!(compute_gcell_capacity(&g, 0, 0, 0, 50, 7, false), 2, "0 and 50, not 100");
    assert_eq!(compute_gcell_capacity(&g, 1, 0, 0, 50, 7, false), 2, "100 and 150");
    assert_eq!(compute_gcell_capacity(&g, 0, 0, 100, 50, 3, false), 0, "the first track is on the upper side");
    assert_eq!(g.gcell_rect(2, 0), Rect::new(200, 0, 320, 100));
    assert_eq!(g.position_from_grid_point(1, 2), (150, 250));
}

// Every cell starts where the one before it ends, and the last ones end with the area.
#[test]
fn cells_tile_the_area() {
    let g = grid();
    for y in 0..g.y_grids {
        for x in 0..g.x_grids {
            let r = g.gcell_rect(x, y);
            assert_eq!((r.x_min, r.y_min), (g.area.x_min + x * g.tile_size, g.area.y_min + y * g.tile_size));
            assert_eq!(r.x_max, if x + 1 < g.x_grids { g.gcell_rect(x + 1, y).x_min } else { g.area.x_max });
            assert_eq!(r.y_max, if y + 1 < g.y_grids { g.gcell_rect(x, y + 1).y_min } else { g.area.y_max });
        }
    }
}

#[test]
fn capacities_by_level_and_in_the_plane() {
    let g = grid();
    let layers = vec![CapacityLayer { direction: H, tracks: Some(tracks(1)) }, CapacityLayer { direction: V, tracks: Some(tracks(2)) }];
    let fr = mirror_grid_to_fast_route(&g, &[H, V]);
    assert_eq!((fr.x_range, fr.y_range, fr.directions.len()), (1000, 1000, 2));
    let c = set_capacities(&fr, &g, &layers, 1, 2, false);
    assert_eq!(c.h3[0], 5);
    assert_eq!(c.h3[2 * 3], 6, "the last row is wider");
    assert_eq!(c.v3[0], 0, "the first level is horizontal");
    assert_eq!(c.v3[9], 5);
    assert_eq!(c.h2, vec![5, 5, 5, 5, 6, 6]);
    assert_eq!(c.v2, vec![5, 5, 6, 5, 5, 6]);
    assert_eq!((c.h_capacity, c.v_capacity), (5, 5));
    assert_eq!(set_capacities(&fr, &g, &layers, 2, 2, false).h3[0], 0, "a level out of range has none");
    assert_eq!(i32::from(set_capacities(&fr, &g, &layers, 2, 2, true).h3[0]), INFINITE_CAPACITY);
    let (h, v) = init_edges_capacity_per_layer(&c);
    assert_eq!((h.len(), v.len()), (18, 18));
    assert_eq!(capacity_edge_order(3, 1, true), vec![((0, 0), (1, 0)), ((1, 0), (2, 0))]);
    assert_eq!(capacity_edge_order(1, 3, false), vec![((0, 0), (0, 1)), ((0, 1), (0, 2))]);
}

fn edges() -> RouterEdges {
    let e = |cap: u16| EdgeState { cap, red: 0, real_cap: 0 };
    RouterEdges {
        die: Rect::new(0, 0, 300, 300),
        tile_size: 100,
        x_grid: 3,
        y_grid: 3,
        num_layers: 2,
        track_pitches: vec![20, 20],
        h3: vec![e(5); 18],
        v3: vec![e(5); 18],
        h2: vec![e(10); 6],
        v2: vec![e(10); 6],
        horizontal_blocked: BlockedMap::new(),
        vertical_blocked: BlockedMap::new(),
        verbose: true,
        log: Vec::new(),
    }
}

// Intervals are determined by the numbers that they hold, in whatever order they were added.
#[test]
fn intervals_join_in_any_order() {
    let mut a = IntervalSet::new();
    for (lo, hi) in [(10, 20), (40, 50), (20, 30), (5, 5)] {
        a.add(lo, hi);
    }
    let mut b = IntervalSet::new();
    for (lo, hi) in [(20, 30), (40, 50), (10, 25)] {
        b.add(lo, hi);
    }
    assert_eq!(a.0, vec![(10, 30), (40, 50)]);
    assert_eq!(a.0, b.0);
    assert_eq!(a.blocked_track_count(20), 2);
    assert_eq!(a.blocked_track_count(7), 5);
    assert_eq!(a.blocked_track_count(0), 0);
}

#[test]
fn an_adjustment_moves_both_edges() {
    let mut e = edges();
    e.add_adjustment(0, 0, 1, 0, 1, 2, true);
    assert_eq!(e.get_edge_capacity(0, 0, 1, 0, 1), 2);
    assert_eq!(e.h3[0], EdgeState { cap: 2, red: 3, real_cap: 0 });
    assert_eq!(e.h2[0], EdgeState { cap: 7, red: 3, real_cap: 0 });
    e.add_adjustment(0, 0, 1, 0, 1, 6, true);
    assert_eq!(e.log.len(), 1, "an underflow is warned about");
    assert_eq!(e.get_position_on_grid(250, 40), (250, 50));
    let (first, last, a, b) = e.get_blocked_tiles(Rect::new(10, 110, 190, 150));
    assert_eq!((a, b), ((0, 1), (1, 1)));
    assert_eq!((first, last), (Rect::new(0, 100, 100, 200), Rect::new(100, 100, 200, 200)));
}

// An obstruction over a horizontal layer takes the tracks under it off the edges between its sides.
#[test]
fn an_obstruction_blocks_what_it_covers() {
    let mut e = edges();
    apply_obstruction_adjustment(&mut e, Rect::new(0, 0, 300, 40), 1, H, false);
    init_blocked_intervals(&mut e);
    assert_eq!(e.h3[0].cap, 3, "forty of a hundred, two tracks of twenty");
    assert_eq!(e.h3[3].cap, 5, "the next row is untouched");
    assert_eq!(e.v3[0].cap, 5, "so is the other direction");
    let before = e.h3[0].cap;
    apply_obstruction_adjustment(&mut e, Rect::new(400, 400, 500, 500), 1, H, false);
    assert_eq!(e.h3[0].cap, before);
    save_resources_before_adjustments(&mut e);
    assert_eq!((e.h3[0].cap, e.h3[0].real_cap), (3, 3), "only the real capacity is saved");
}

#[test]
fn transition_tiles_are_halved() {
    let mut e = edges();
    e.h3[0].cap = 1;
    adjust_tile_set(&mut e, &[(0, 0), (1, 0)], 1, H);
    assert_eq!((e.h3[0].cap, e.h3[1].cap), (1, 2), "one stays one");
}

#[test]
fn levels_and_regions_are_scaled() {
    let mut e = edges();
    let half: Vec<u16> = (0..=u16::MAX).map(|c| c / 2).collect();
    let scales = vec![None, Some(LayerScale { scaled: half.clone(), is_reduce: true }), None];
    compute_user_layer_adjustments(&mut e, &scales, &[None, H, V], 1, 2);
    assert_eq!((e.h3[0].cap, e.v3[9].cap), (2, 5));
    let mut e = edges();
    let t = region_tiles(&e, Rect::new(0, 0, 150, 50), H, 20).unwrap();
    assert_eq!((t.first, t.last), ((0, 0), (1, 0)));
    compute_region_adjustments(&mut e, t, 1, &RegionCaps { first: half.clone(), last: half.clone(), inner: half }, H);
    assert_eq!((e.h3[0].cap, e.h3[1].cap, e.h3[2].cap), (2, 2, 5));
    assert_eq!(region_tiles(&e, Rect::new(-5, -5, 50, 50), H, 20), Err(RegionOutsideDie));
    assert_eq!(compute_tile_reduce(Rect::new(0, 0, 300, 50), Rect::new(0, 0, 100, 100), 20, true, H), 3);
    let mut own = vec![None, Some(7), None, None];
    compute_user_global_adjustments(&mut own, Some(9), 1, 2);
    assert_eq!(own, vec![None, Some(7), Some(9), None]);
}

#[test]
fn resources_are_reported() {
    let l = ResourceLayer { name: "m1", horizontal: true, h_edges: &[(3, 5), (4, 5)], v_edges: &[(1, 9)] };
    assert_eq!(layer_resources(&l), (10, 8));
    let mut log = Vec::new();
    report_resources(&[l], &["20.00".to_string()], &mut log);
    assert!(log.iter().any(|s| s == "m1         Horizontal         10             8          20.00%"));
}
