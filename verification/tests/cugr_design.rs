use vyges_grt::cugr::design::{Design, DesignError, DesignFacts, LayerRange, NetFacts, PinFacts, Rect, Shape, ShapeLayer, TechLayerFacts, TechViaFacts, VIA_MULTIPLIER};
use vyges_grt::cugr::geo::{BoxT, Interval, Point};
use vyges_grt::cugr::layers::{MetalLayer, MetalLayerFacts};

fn layer(name: &str, level: i32, horizontal: bool, width: i32, pitch: i32, area: i64) -> TechLayerFacts {
    TechLayerFacts {
        name: name.into(),
        is_routing: true,
        routing_level: level,
        upper_layer: format!("{name}_cut"),
        metal: Some(MetalLayerFacts {
            name: name.into(),
            routing_level: level,
            horizontal,
            width,
            min_width: width,
            spacing: width,
            tracks: (pitch, pitch / 2, 100),
            area,
            v55_widths_and_lengths: None,
            v55_table: None,
        }),
    }
}

fn facts() -> DesignFacts {
    DesignFacts {
        dbu_per_micron: 2000,
        die: (0, 0, 20000, 11000),
        gcell_tile_size: 5000,
        layers: vec![layer("m1", 1, true, 140, 280, 0), layer("m2", 2, false, 140, 380, 0), layer("m3", 3, true, 140, 280, 0)],
        vias: Vec::new(),
        nets: Vec::new(),
        instance_shapes: Vec::new(),
        design_obstructions: Vec::new(),
        min_layer_for_clock: 0,
        max_layer_for_clock: 0,
    }
}

fn via(name: &str, boxes: &[(&str, Rect)], or_default: bool, is_default: bool) -> TechViaFacts {
    TechViaFacts { name: name.into(), bottom: "m1".into(), top: "m2".into(), boxes: boxes.iter().map(|(l, r)| (l.to_string(), *r)).collect(), or_default, is_default }
}

fn chosen(f: &DesignFacts) -> String {
    f.vias[Design::choose_via_for_pair(f, "m1", "m2", "m1_cut").unwrap()].name.clone()
}

#[test]
fn last_gcell_absorbs_the_remainder() {
    let d = Design::new(&facts(), VIA_MULTIPLIER, 2, 3).unwrap();
    assert_eq!(d.gridlines[0], vec![0, 5000, 10000, 20000]);
    assert_eq!(d.gridlines[1], vec![0, 5000, 11000]);
}

#[test]
fn via_choice_ranking() {
    let mut f = facts();
    let one_cut = [("m1", (0, 0, 10, 10)), ("m1_cut", (0, 0, 5, 5)), ("m2", (0, 0, 10, 10))];
    let two_cuts = [("m1", (0, 0, 10, 10)), ("m1_cut", (0, 0, 5, 5)), ("m1_cut", (6, 6, 9, 9)), ("m2", (0, 0, 10, 10))];
    let small = [("m1", (0, 0, 4, 4)), ("m1_cut", (0, 0, 2, 2)), ("m2", (0, 0, 4, 4))];
    f.vias = vec![via("a", &one_cut, false, true), via("b", &two_cuts, true, false)];
    assert_eq!(chosen(&f), "b", "a marked default beats the number of cuts");
    f.vias = vec![via("a", &two_cuts, false, true), via("b", &one_cut, false, false)];
    assert_eq!(chosen(&f), "b", "fewer cuts beat a default");
    f.vias = vec![via("a", &one_cut, false, false), via("b", &small, false, true)];
    assert_eq!(chosen(&f), "b", "a default beats the area");
    f.vias = vec![via("a", &one_cut, false, false), via("b", &one_cut, false, false)];
    assert_eq!(chosen(&f), "a", "a full tie keeps the first");
    f.vias = Vec::new();
    assert_eq!(Design::choose_via_for_pair(&f, "m1", "m2", "m1_cut"), None);
}

// The extent along the tracks times the tracks blocked across them.
#[test]
fn via_demand_length_blocks_whole_tracks() {
    let d = Design::new(&facts(), VIA_MULTIPLIER, 2, 3).unwrap();
    assert_eq!(Design::via_demand_length(&d.layers[1], 140, 280), 560);
    assert_eq!(Design::via_demand_length(&d.layers[0], 140, 280), 280);
}

#[test]
fn via_demand_spacing_falls_back_to_the_parallel_run_default() {
    let mut f = facts();
    let m = f.layers[1].metal.as_mut().unwrap();
    m.spacing = 0;
    m.v55_widths_and_lengths = Some((vec![0], vec![0]));
    m.v55_table = Some(vec![vec![200]]);
    let d = Design::new(&f, VIA_MULTIPLIER, 2, 3).unwrap();
    assert_eq!(d.layers[1].default_spacing, 200);
    assert_eq!(Design::via_demand_length(&d.layers[1], 140, 280), 560);
}

#[test]
fn via_demand_unions_boxes_and_falls_back() {
    let mut f = facts();
    f.layers[0].metal.as_mut().unwrap().area = 140 * 400;
    let d = Design::new(&f, VIA_MULTIPLIER, 2, 3).unwrap();
    assert_eq!(d.pair_vias[0], None);
    assert_eq!(d.via_demand_length_lower[0], 260 * 2);
    f.vias = vec![via("v", &[("m1", (0, 0, 100, 140)), ("m1", (50, 0, 300, 140)), ("m2", (0, 0, 140, 140))], false, false)];
    let d = Design::new(&f, VIA_MULTIPLIER, 2, 3).unwrap();
    assert_eq!(d.via_demand_length_lower[0], 600);
    assert_eq!(d.via_demand_length_lower[2], 0, "the top layer has no pair");
}

#[test]
fn the_fallback_goes_by_the_multiplier() {
    let mut f = facts();
    f.layers[0].metal.as_mut().unwrap().area = 140 * 400;
    assert_eq!(Design::new(&f, 3, 2, 3).unwrap().via_demand_length_lower[0], 260 * 3);
    assert_eq!(Design::new(&f, 0, 2, 3).unwrap().via_demand_length_lower[0], 0);
    f.vias = vec![via("v", &[("m1", (0, 0, 100, 140)), ("m1", (50, 0, 300, 140)), ("m2", (0, 0, 140, 140))], false, false)];
    assert_eq!(Design::new(&f, 3, 2, 3).unwrap().via_demand_length_lower[0], 600, "a via goes by its boxes");
}

fn pin(name: &str, is_port: bool, has_location: bool, shapes: &[(Option<ShapeLayer>, Rect)]) -> PinFacts {
    PinFacts { name: name.into(), is_port, has_location, shapes: shapes.iter().map(|&(layer, rect)| Shape { layer, rect }).collect() }
}

fn net(name: &str, pins: Vec<PinFacts>) -> NetFacts {
    NetFacts { name: name.into(), is_special: false, is_supply: false, has_swires: false, connected_by_abutment: false, is_clock: false, pins, wire_count: 0, swire_boxes: Vec::new() }
}

const M1: Option<ShapeLayer> = Some(ShapeLayer { is_routing: true, routing_level: 1 });
const M9: Option<ShapeLayer> = Some(ShapeLayer { is_routing: true, routing_level: 9 });
const CUT: Option<ShapeLayer> = Some(ShapeLayer { is_routing: false, routing_level: 0 });

#[test]
fn net_pins_clamp_and_keep_unplaced_terminals() {
    let mut f = facts();
    f.nets = vec![
        net("a", vec![pin("p", true, false, &[(M1, (0, 0, 1, 1))]), pin("u1/A", false, true, &[(M9, (0, 0, 1, 1)), (CUT, (0, 0, 1, 1))])]),
        net("single", vec![pin("u2/A", false, true, &[(M1, (0, 0, 1, 1))])]),
    ];
    let d = Design::new(&f, VIA_MULTIPLIER, 2, 3).unwrap();
    assert_eq!(d.nets.len(), 1, "a one-terminal net is not routed");
    let n = &d.nets[0];
    assert!(n.pins[0].shapes.is_empty(), "no pin location: no shapes");
    assert_eq!(n.pins[1].shapes.len(), 1, "the cut box is dropped");
    assert_eq!(n.pins[1].shapes[0].layer, 2, "level 9 clamps to the top layer, index 2");
    assert_eq!(n.layer_range, LayerRange { min_layer: 1, max_layer: 2 });
}

#[test]
fn clock_range_needs_both_bounds() {
    let mut f = facts();
    let two = || vec![pin("u1/A", false, true, &[(M1, (0, 0, 1, 1))]), pin("u2/A", false, true, &[(M1, (0, 0, 1, 1))])];
    let mut clk = net("clk", two());
    clk.is_clock = true;
    f.nets = vec![clk];
    f.min_layer_for_clock = 3;
    assert_eq!(Design::new(&f, VIA_MULTIPLIER, 2, 3).unwrap().nets[0].layer_range.min_layer, 1);
    f.max_layer_for_clock = 3;
    assert_eq!(Design::new(&f, VIA_MULTIPLIER, 2, 3).unwrap().nets[0].layer_range, LayerRange { min_layer: 2, max_layer: 2 });
}

#[test]
fn special_net_obstacles() {
    let mut f = facts();
    let mut vdd = net("VDD", Vec::new());
    vdd.is_supply = true;
    vdd.wire_count = 2;
    vdd.swire_boxes = vec![
        (Shape { layer: M1, rect: (0, 0, 10, 10) }, true),
        (Shape { layer: CUT, rect: (0, 0, 5, 5) }, true),
        (Shape { layer: M9, rect: (0, 0, 10, 10) }, false),
        (Shape { layer: M1, rect: (0, 0, 99, 10) }, false),
    ];
    let mut unwired = net("VSS", Vec::new());
    unwired.is_supply = true;
    unwired.swire_boxes = vec![(Shape { layer: M1, rect: (0, 0, 1, 1) }, false)];
    f.nets = vec![vdd, unwired];
    let d = Design::new(&f, VIA_MULTIPLIER, 2, 3).unwrap();
    assert_eq!(d.num_special_nets, 1, "a zero wire count skips the net");
    assert_eq!(d.obstacles.len(), 2);
    assert_eq!(d.obstacles[1].b, BoxT::new(0, 0, 99, 10));
}

#[test]
fn designs_that_cannot_be_read() {
    let mut f = facts();
    let mut vdd = net("VDD", Vec::new());
    vdd.is_supply = true;
    vdd.wire_count = 1;
    vdd.swire_boxes = vec![(Shape { layer: CUT, rect: (0, 0, 5, 5) }, false)];
    f.nets = vec![vdd];
    assert!(matches!(Design::new(&f, VIA_MULTIPLIER, 2, 3), Err(DesignError::SpecialWireOffRoutingLayer { net }) if net == "VDD"));
    let mut f = facts();
    f.layers.truncate(1);
    assert!(matches!(Design::new(&f, VIA_MULTIPLIER, 1, 1), Err(DesignError::TooFewLayers)));
    let mut f = facts();
    f.die = (0, 0, 4000, 11000);
    assert!(matches!(Design::new(&f, VIA_MULTIPLIER, 2, 3), Err(DesignError::DieSmallerThanGcell)));
}

fn table_facts() -> MetalLayerFacts {
    MetalLayerFacts {
        name: "m2".into(),
        routing_level: 2,
        horizontal: false,
        width: 140,
        min_width: 140,
        spacing: 140,
        tracks: (380, 190, 527),
        area: 0,
        v55_widths_and_lengths: Some((vec![0, 180, 540], vec![0, 600, 1800])),
        v55_table: Some(vec![vec![140, 140, 140], vec![140, 180, 180], vec![140, 180, 540]]),
    }
}

#[test]
fn parallel_spacing_row_is_strictly_below_the_query() {
    let l = MetalLayer::new(&table_facts());
    assert_eq!(l.parallel_spacing_for(180, 1000), 140, "180 is not above row 1's 180");
    assert_eq!(l.parallel_spacing_for(181, 1000), 180, "181 reads row 1");
    assert_eq!(l.parallel_spacing_for(541, 1801), 540, "past both last bounds: last cell");
    assert_eq!(l.parallel_spacing_for(541, 1800), 180, "length 1800 is not above 1800");
    assert_eq!(l.default_spacing, 140, "default spacing is the layer width, length 0");
}

#[test]
fn no_table_keeps_the_defaults() {
    let mut f = table_facts();
    f.v55_table = None;
    let l = MetalLayer::new(&f);
    assert_eq!((l.parallel_width.clone(), l.parallel_length.clone()), (vec![0], vec![0]));
    assert_eq!(l.parallel_spacing_for(1000, 1000), 0);
}

#[test]
fn min_length_from_area() {
    let mut f = table_facts();
    f.area = 83_000;
    assert_eq!(MetalLayer::new(&f).min_length, 452);
    f.area = 10_000;
    assert_eq!(MetalLayer::new(&f).min_length, 0);
    f.width = -140;
    f.area = -83_000;
    assert_eq!(MetalLayer::new(&f).min_length, 732, "only a width of nothing cannot be divided by");
}

#[test]
fn range_search_tracks_bounds() {
    let l = MetalLayer::new(&table_facts());
    assert_eq!(l.range_search_tracks(Interval::new(190, 950), true), Interval::new(0, 2));
    assert_eq!(l.range_search_tracks(Interval::new(190, 950), false), Interval::new(1, 1));
    assert_eq!(l.range_search_tracks(Interval::new(191, 949), true), Interval::new(1, 1));
    assert!(!l.range_search_tracks(Interval::new(200, 500), true).is_valid());
}

#[test]
fn a_bounding_box_grows_from_empty() {
    let mut b = BoxT::default();
    assert!(!b.is_valid());
    assert_eq!(b.hp(), 0, "an invalid box has half perimeter 0, not a wrapped negative");
    b.update(Point::new(3, 7));
    assert_eq!((b.lx(), b.ly(), b.hx(), b.hy()), (3, 7, 3, 7));
    b.update(Point::new(1, 9));
    assert_eq!(b.hp(), 2 + 2);
}

#[test]
fn center_truncates_toward_zero() {
    assert_eq!(Interval::new(-3, 0).center(), -1);
    assert_eq!(Interval::new(1, 4).center(), 2);
}

#[test]
fn invalid_intervals_are_equal_and_absorbed_by_union() {
    assert_eq!(Interval::new(5, 2), Interval::default());
    assert_ne!(Interval::new(2, 5), Interval::new(2, 6));
    assert_eq!(Interval::default().union_with(&Interval::point(4)), Interval::point(4));
    assert!(!Interval::new(0, 1).intersect_with(&Interval::new(3, 4)).is_valid());
}
