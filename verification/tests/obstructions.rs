use vyges_grt::adjust::{BlockedMap, EdgeState, RegionCaps, RouterEdges};
use vyges_grt::capacity::{Direction, LayerError, RoutingLayer};
use vyges_grt::global_route::obstructions::{
    extend_obstructions, find_obstructions, macro_obstructions, InstancePin, InstanceShapes, LevelRect, MacroHalo, NetShapes, Obstruction, ObstructionError, RouteLimits,
};
use vyges_grt::global_route::setup::{adjust_transition_layers, setup_adjust, RegionChange};
use vyges_grt::global_route::slabs::intersection_rectangles;
use vyges_grt::global_route::tech::{
    add_layer_adjustment, find_layer_extensions, find_tracks, find_transition_layers, first_edges, setup_capacities, setup_tech, BlockLevels, DefaultVia, SpacingFacts, TechError,
    ViaBox,
};
use vyges_grt::init::CoreGrid;
use vyges_grt::tracks::RoutingTracks;
use vyges_grt::Rect;

fn r(x0: i32, y0: i32, x1: i32, y1: i32) -> Rect {
    Rect::new(x0, y0, x1, y1)
}

// Slabs as wide as the region is in their rows, from the bottom up; a slab lasts as long as its width does.
#[test]
fn a_meeting_region_is_cut_into_slabs() {
    assert!(intersection_rectangles(&vec![r(0, 0, 10, 10)], &vec![r(10, 0, 20, 10)]).is_empty(), "touching is not meeting");
    assert_eq!(intersection_rectangles(&vec![r(0, 0, 10, 10)], &vec![r(5, 5, 20, 20)]), vec![r(5, 5, 10, 10)]);
    // an L: wide below, narrow above
    let l = vec![r(0, 0, 10, 5), r(0, 5, 4, 10)];
    assert_eq!(intersection_rectangles(&l, &vec![r(0, 0, 10, 10)]), vec![r(0, 0, 10, 5), r(0, 5, 4, 10)]);
    // two overlapping pieces are one run, and equal rows are one slab
    assert_eq!(intersection_rectangles(&vec![r(0, 0, 6, 10), r(4, 0, 10, 10)], &vec![r(0, 0, 10, 10)]), vec![r(0, 0, 10, 10)]);
    // a gap in the middle rows only
    let h = vec![r(0, 0, 3, 9), r(6, 0, 9, 9), r(0, 0, 9, 3), r(0, 6, 9, 9)];
    assert_eq!(intersection_rectangles(&h, &vec![r(0, 0, 9, 9)]), vec![r(0, 0, 9, 3), r(0, 3, 3, 6), r(6, 3, 9, 6), r(0, 6, 9, 9)]);
}

// The same region given in other pieces is cut into the same slabs.
#[test]
fn slabs_do_not_depend_on_the_pieces() {
    let a = intersection_rectangles(&vec![r(0, 0, 8, 8)], &vec![r(0, 0, 8, 8)]);
    let b = intersection_rectangles(&vec![r(0, 0, 8, 3), r(0, 3, 5, 8), r(5, 3, 8, 8)], &vec![r(0, 0, 8, 8)]);
    assert_eq!(a, b);
}

#[test]
fn a_macro_blocks_the_levels_between() {
    // levels 1 to 4 are routed; the macro is on 2 only
    let mut per: Vec<Vec<Rect>> = vec![Vec::new(); 6];
    per[2] = vec![r(0, 0, 10, 10)];
    extend_obstructions(&mut per, Some((2, 2)), 1, 4);
    assert_eq!(per[1], vec![r(0, 0, 10, 10)], "the lowest routed level takes over its neighbour's");
    assert_eq!(per[2], vec![r(0, 0, 10, 10)]);
    assert!(per[3].is_empty() && per[4].is_empty());
    // on 2 and 4: the third is blocked where both are
    let mut per: Vec<Vec<Rect>> = vec![Vec::new(); 7];
    per[2] = vec![r(0, 0, 10, 10)];
    per[4] = vec![r(5, 0, 20, 10)];
    extend_obstructions(&mut per, Some((2, 4)), 2, 5);
    assert_eq!(per[3], vec![r(5, 0, 10, 10)]);
    assert_eq!(per[5], vec![r(5, 0, 20, 10)], "the highest takes over the fourth's");
}

fn layers() -> Vec<RoutingLayer> {
    (1..=3)
        .map(|l| RoutingLayer {
            name: format!("m{l}"),
            routing_level: l,
            direction: Some(if l % 2 == 1 { Direction::Horizontal } else { Direction::Vertical }),
            has_track_grid: true,
            is_backside: false,
        })
        .collect()
}

fn limits(verbose: bool) -> RouteLimits {
    RouteLimits { min: 1, max: 3, die: r(0, 0, 300, 300), verbose }
}

fn halo() -> MacroHalo {
    MacroHalo { spacings: vec![0, 5, 6, 7], extension: 10 }
}

#[test]
fn macros_are_widened_across_their_direction() {
    let m = macro_obstructions(&vec![LevelRect { level: 2, rect: r(100, 100, 200, 200) }, LevelRect { level: 9, rect: r(0, 0, 1, 1) }], limits(false), &halo(), &layers());
    assert_eq!(m[1], vec![r(100, 85, 200, 215)], "horizontal: up and down by 15");
    assert_eq!(m[2], vec![r(84, 100, 216, 200)], "vertical: left and right by 16");
    assert_eq!(m[3], vec![r(100, 83, 200, 217)]);
}

fn inst(name: &str, is_block: bool) -> InstanceShapes {
    InstanceShapes { name: name.into(), is_block, is_pad: false, obstructions: Vec::new(), pins: Vec::new() }
}

fn nets() -> Vec<NetShapes> {
    vec![
        NetShapes { name: "a".into(), has_wires: true, shapes: vec![LevelRect { level: 1, rect: r(0, 0, 400, 10) }, LevelRect { level: 0, rect: r(0, 0, 5, 5) }] },
        NetShapes { name: "b".into(), has_wires: false, shapes: vec![LevelRect { level: 1, rect: r(0, 0, 1, 1) }] },
    ]
}

#[test]
fn obstructions_come_in_order_with_their_warnings() {
    let mut cell = inst("u1", false);
    cell.obstructions = vec![LevelRect { level: 2, rect: r(290, 0, 310, 10) }];
    cell.pins = vec![
        InstancePin { term: "A".into(), is_supply: false, is_routing: true, level: 1, rect: r(1, 1, 2, 2) },
        InstancePin { term: "VDD".into(), is_supply: true, is_routing: true, level: 1, rect: r(-5, 1, 2, 2) },
        InstancePin { term: "C".into(), is_supply: false, is_routing: false, level: 0, rect: r(-5, 1, 2, 2) },
    ];
    let block = vec![LevelRect { level: 3, rect: r(-10, 0, 5, 5) }, LevelRect { level: 4, rect: r(0, 0, 1, 1) }];
    let (f, res) = find_obstructions(&block, &vec![cell], &nets(), limits(true), &halo(), &layers());
    assert_eq!(res, Ok(()));
    assert_eq!(f.stream.iter().map(|o| (o.level, o.rect.x_min)).collect::<Vec<_>>(), vec![(3, -10), (2, 290), (1, 1), (1, -5), (1, 0)]);
    assert_eq!(
        f.log,
        vec![
            "[WARNING GRT-0037] Found blockage outside die area.",
            "[WARNING GRT-0038] Found blockage outside die area in instance u1.",
            "[WARNING GRT-0041] Net a has wires/vias outside die area."
        ]
    );
    assert!(!f.has_macros_or_pads);
}

#[test]
fn pins_outside_the_die_and_no_nets_are_refused() {
    let mut m = inst("m", true);
    m.obstructions = vec![LevelRect { level: 2, rect: r(100, 100, 200, 200) }];
    m.pins = vec![InstancePin { term: "P".into(), is_supply: false, is_routing: true, level: 1, rect: r(-5, 1, 2, 2) }];
    let (f, res) = find_obstructions(&Vec::new(), &vec![m], &nets(), limits(true), &halo(), &layers());
    let e = res.unwrap_err();
    assert_eq!(e, ObstructionError::PinsOutside { pins: 1 });
    assert_eq!(e.message(), "GRT-0028: Found 1 pins outside die area.");
    assert_eq!(f.log, vec!["[WARNING GRT-0039] Found pin P outside die area in instance m."]);
    assert!(f.has_macros_or_pads);
    assert_eq!(f.stream.iter().filter(|o| o.is_macro).count(), 3);
    let mut quiet = inst("m", false);
    quiet.pins = vec![InstancePin { term: "P".into(), is_supply: false, is_routing: true, level: 1, rect: r(-5, 1, 2, 2) }];
    let (_, res) = find_obstructions(&Vec::new(), &vec![quiet], &Vec::new(), limits(false), &halo(), &layers());
    let e = res.unwrap_err();
    assert_eq!(e.message(), "GRT-0094: Design with no nets.");
}

fn edges() -> RouterEdges {
    let e = |cap: u16| EdgeState { cap, red: 0, real_cap: 0 };
    RouterEdges {
        die: r(0, 0, 300, 300),
        tile_size: 100,
        x_grid: 3,
        y_grid: 3,
        num_layers: 3,
        track_pitches: vec![20, 20, 20],
        h3: vec![e(5); 27],
        v3: vec![e(5); 27],
        h2: vec![e(10); 6],
        v2: vec![e(10); 6],
        horizontal_blocked: BlockedMap::new(),
        vertical_blocked: BlockedMap::new(),
        verbose: false,
        log: Vec::new(),
    }
}

#[test]
fn the_edges_are_set_up() {
    let (f, res) = find_obstructions(&vec![LevelRect { level: 1, rect: r(0, 0, 300, 40) }], &Vec::new(), &nets(), limits(false), &halo(), &layers());
    assert_eq!(res, Ok(()));
    let mut e = edges();
    let mut log = vec!["first".to_string()];
    let a = setup_adjust(&mut e, f, Vec::new(), &[None, None, None, None], &[None, None, None, None], &[], &layers(), limits(false), &mut log).unwrap();
    assert_eq!(a.stream[0], Obstruction { rect: r(0, 0, 300, 40), level: 1, is_macro: false });
    assert_eq!(e.h3[0].cap, 3);
    assert_eq!(e.h3[0].real_cap, 3);
    assert_eq!(log, vec!["first"]);
}

fn shrunk(region: Rect, layer: i32) -> RegionChange {
    let half: Vec<u16> = (0..=u16::MAX).map(|c| c / 2).collect();
    RegionChange { region, layer, use_pitch: 20, caps: RegionCaps { first: half.clone(), last: half.clone(), inner: half } }
}

#[test]
fn regions_are_adjusted_after_the_levels() {
    let found = || find_obstructions(&Vec::new(), &Vec::new(), &nets(), limits(false), &halo(), &layers()).0;
    let mut log = Vec::new();
    let mut e = edges();
    let none = [None, None, None, None];
    let regions = [shrunk(r(0, 0, 150, 50), 1), shrunk(r(0, 0, 50, 50), 1)];
    setup_adjust(&mut e, found(), Vec::new(), &[None, None, None, None], &none, &regions, &layers(), limits(false), &mut log).unwrap();
    assert_eq!((e.h3[0].cap, e.h3[1].cap, e.h3[3].cap), (1, 2, 5), "the first cell is in both regions");
    assert_eq!(e.h3[0].real_cap, 4, "a wire takes one track, and what it left is kept from before the adjustments");
    let mut e = edges();
    let outside = [shrunk(r(0, 0, 50, 50), 1), shrunk(r(-5, -5, 50, 50), 3)];
    let refused = setup_adjust(&mut e, found(), Vec::new(), &[None, None, None, None], &none, &outside, &layers(), limits(false), &mut log).unwrap_err();
    assert_eq!((refused.layer, e.h3[0].cap), (3, 2));
}

#[test]
fn a_transition_level_is_halved_under_the_macros_below_it() {
    let mut e = edges();
    let mut macros: Vec<Vec<Rect>> = vec![Vec::new(); 5];
    macros[1] = vec![r(10, 10, 250, 250)];
    adjust_transition_layers(&mut e, &vec![2], &macros, &layers());
    assert_eq!(e.v3[9].cap, 2, "vertical edges of the second level");
    assert_eq!(e.v3[9 + 2 * 3 + 2].cap, 5, "the last tile of the span is left out");
    assert_eq!(e.h3[9].cap, 5);
}

#[test]
fn a_via_wider_than_four_fifths_of_the_pitch_makes_a_transition() {
    let tracks = vec![RoutingTracks { layer_index: 1, track_pitch: 100, location: 0, num_tracks: 3 }, RoutingTracks { layer_index: 2, track_pitch: 100, location: 0, num_tracks: 3 }];
    let via = |level: i32, dx: i32, dy: i32| DefaultVia { level, boxes: vec![ViaBox { level: level + 1, dx: 1, dy: 1 }, ViaBox { level, dx, dy }] };
    assert_eq!(find_transition_layers(&vec![via(1, 80, 99), via(2, 99, 80)], &layers(), &tracks, 3), Vec::<i32>::new(), "exactly four fifths is not wider");
    assert_eq!(find_transition_layers(&vec![via(1, 81, 0), via(2, 0, 81)], &layers(), &tracks, 3), vec![1, 2]);
    assert_eq!(find_transition_layers(&vec![via(2, 0, 81)], &layers(), &tracks, 1), Vec::<i32>::new(), "above the highest level");
    assert_eq!(find_transition_layers(&vec![via(3, 1, 1)], &layers(), &tracks, 3), vec![3], "without a pitch every width is wide");
    for w in [0, 1, 79, 80, 81, 1000] {
        for p in [1, 50, 99, 100, 101, 1_000_000_007, 2_147_483_647] {
            let t = vec![RoutingTracks { layer_index: 1, track_pitch: p, location: 0, num_tracks: 3 }];
            let wide = f64::from(w) / f64::from(p) > f64::from(0.8f32);
            assert_eq!(!find_transition_layers(&vec![via(1, w, 0)], &layers(), &t, 3).is_empty(), wide);
        }
    }
    let p = 1_610_612_735;
    let t = vec![RoutingTracks { layer_index: 1, track_pitch: p, location: 0, num_tracks: 3 }];
    for w in 1_288_490_180..1_288_490_220 {
        let wide = f64::from(w) / f64::from(p) > f64::from(0.8f32);
        assert_eq!(!find_transition_layers(&vec![via(1, w, 0)], &layers(), &t, 3).is_empty(), wide);
    }
}

#[test]
fn halos_are_the_largest_spacing() {
    let f = |level: i32, spacing: i32, rules: &[i32], has_two_widths: bool| SpacingFacts { level, name: format!("m{level}"), spacing, rules: rules.to_vec(), has_two_widths };
    assert_eq!(find_layer_extensions(&vec![f(1, 10, &[5, 30, 20], false), f(2, 40, &[], false), f(3, 9, &[], false)], 1, 2).unwrap(), vec![0, 30, 40, 0]);
    assert!(matches!(find_layer_extensions(&vec![f(1, 10, &[], false), f(2, 40, &[], true)], 1, 2), Err(e) if e.layer == "m2"));
    assert!(find_layer_extensions(&vec![f(1, 10, &[], false), f(2, 40, &[], true)], 1, 1).is_ok());
    let named = vec![(4, "m4".to_string()), (5, "m5".to_string())];
    let mut log = Vec::new();
    assert!(add_layer_adjustment(5, 4, &named, false, &mut log));
    assert!(!add_layer_adjustment(4, 4, &named, true, &mut log));
    assert!(!add_layer_adjustment(5, 0, &named, true, &mut log), "an unset maximum ignores nothing");
    assert!(log.is_empty());
    assert!(add_layer_adjustment(5, 4, &named, true, &mut log));
    assert_eq!(log, vec!["[WARNING GRT-0030] Specified layer m5 for adjustment is greater than max routing layer m4 and will be ignored."]);
}

#[test]
fn the_technology_is_set_up() {
    let b = |block_max: i32| BlockLevels { block_min: 1, block_max, clock_min: 0, clock_max: 0 };
    let t = setup_tech(b(-1), &layers()).unwrap();
    assert_eq!((t.block_max, t.min_routing_layer, t.max_routing_layer, t.routing_layers.len()), (3, 1, 3, 3));
    let mut bare = layers();
    bare[0].has_track_grid = false;
    assert!(matches!(setup_tech(b(-1), &bare), Err(TechError::NoTracks)));
    assert!(matches!(setup_tech(b(3), &bare), Err(TechError::Layer(LayerError::NoTrackGrid { layer })) if layer == "m1"));
    let mut same = layers();
    same[1].direction = Some(Direction::Horizontal);
    assert!(matches!(setup_tech(b(3), &same), Err(TechError::Layer(LayerError::SameDirection { .. }))));
    let core = CoreGrid { area: r(0, 0, 300, 300), tile_size: 100, x_grids: 3, y_grids: 3, num_layers: 3, perfect_regular_x: true, perfect_regular_y: true };
    let tracks: Vec<RoutingTracks> = (1..=3).map(|l| RoutingTracks { layer_index: l, track_pitch: 20, location: 10, num_tracks: 15 }).collect();
    let (fr, c) = setup_capacities(&core, &layers(), &tracks, 1, 3, false);
    assert_eq!(fr.directions[1], Some(Direction::Vertical));
    assert_eq!((c.h3[0], c.v3[9]), (5, 5));
    let e = first_edges(&core, &c, &tracks, true);
    assert_eq!((e.h3[0], e.h2[0].cap, e.track_pitches.clone()), (EdgeState { cap: 5, red: 0, real_cap: 0 }, 10, vec![20, 20, 20]));
    assert_eq!(find_tracks(&tracks, 2), Some(tracks[1]));
    assert_eq!(find_tracks(&tracks, 7), None);
}
