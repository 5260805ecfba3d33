use vyges_grt::apply::{apply_guides, Guide, GuideOp, NetGuides};
use vyges_grt::congestion::{
    boost_uniform_int, congestion_markers, update_db_congestion, utl_shuffle, CongestionEdge, CrossingNet, DbCongestionLayer, Mt19937, MARKER_SEED,
};
use vyges_grt::finish::{
    cell_suggestion, compute_net_wirelength, compute_suggested_adjustment, compute_wirelength, congestion_verdict, layer_totals, report_congestion, report_routed_nets,
    CongestedGrid, CongestionLayer, LayerTotals,
};
use vyges_grt::single::{double_of, quotient_ceil, quotient_floor, single_of};
use vyges_grt::text::{is_text_less, push_int, push_int_right, push_left_aligned, push_right_aligned};
use vyges_grt::Rect;

#[test]
fn wirelength_counts_what_moves() {
    assert_eq!(compute_net_wirelength(&[10, 0, 20], 100), 230, "a via counts nothing");
    assert_eq!(compute_net_wirelength(&[], 100), 0);
    let mut log = Vec::new();
    assert_eq!(compute_wirelength(&[vec![900], vec![950, 0]], 100, 1000, true, &mut log), 2);
    assert_eq!(compute_wirelength(&[vec![900]], 100, -300, false, &mut log), -3);
    report_routed_nets(7, true, &mut log);
    report_routed_nets(8, false, &mut log);
    assert_eq!(log, vec!["[INFO GRT-0018] Total wirelength: 2 um", "[INFO GRT-0014] Routed nets: 7"]);
}

#[test]
fn congestion_is_reported_by_layer() {
    let l = CongestionLayer { name: "metal1", h_edges: &[(10, 5), (10, 13)], v_edges: &[(4, 5), (4, 6)] };
    let t = layer_totals(&l);
    assert_eq!(t, LayerTotals { resource: 28, demand: 29, overflow: 6, max_h: 3, max_v: 2 });
    let mut log = Vec::new();
    report_congestion(&[l], &["103.57".to_string()], "103.57", &mut log);
    assert_eq!(
        log,
        vec![
            "",
            "[INFO GRT-0096] Final congestion report:",
            "Layer         Resource        Demand        Usage (%)    Max H / Max V / Total Congestion",
            "---------------------------------------------------------------------------------------",
            &format!("{:<7}      {:>9}       {:>7}        {:>8}%            {:>2} / {:>2} / {:>2}", "metal1", 28, 29, "103.57", 3, 2, 6),
            "---------------------------------------------------------------------------------------",
            &format!("Total        {:>9}       {:>7}        {:>8}%            {:>2} / {:>2} / {:>2}", 28, 29, "103.57", 3, 2, 6),
            "",
        ]
    );
}

#[test]
fn suggestions_fall_until_the_capacity_suffices() {
    let g = CongestedGrid { real_cap: 20, usage: 10, layer_real_caps: vec![10, 10] };
    assert_eq!(cell_suggestion(&g, Some(50), &[10, 10, 10, 10, 10]), Some(50));
    assert_eq!(cell_suggestion(&g, Some(50), &[8, 9, 10, 0, 0]), Some(48));
    assert_eq!(cell_suggestion(&g, Some(50), &[0, 0, 0, 0, 0]), Some(45));
    assert_eq!(cell_suggestion(&g, None, &[0, 0, 0, 0, 0]), None);
    let half = CongestedGrid { real_cap: 10, usage: 5, layer_real_caps: vec![5, 5] };
    assert_eq!(cell_suggestion(&half, Some(50), &[4, 4, 4, 4, 4]), Some(45));
    let short = CongestedGrid { real_cap: 4, usage: 5, layer_real_caps: vec![4] };
    assert_eq!((cell_suggestion(&short, Some(50), &[9, 9, 9, 9, 9]), cell_suggestion(&short, None, &[])), (None, None));
    let close = CongestedGrid { real_cap: 16_777_216, usage: 16_777_217, layer_real_caps: vec![] };
    assert_eq!(cell_suggestion(&close, Some(0), &[0, 0, 0, 0, 0]), Some(-5), "the same in single precision");
    assert_eq!(compute_suggested_adjustment(&[Some(30), Some(20)], &[Some(25)]), Some(20));
    assert_eq!(compute_suggested_adjustment(&[], &[]), Some(100));
    assert_eq!(compute_suggested_adjustment(&[Some(30)], &[Some(1), None]), None);
}

#[test]
fn congestion_is_a_warning_or_an_error() {
    let mut log = Vec::new();
    assert!(congestion_verdict(false, false, false, &mut log));
    assert!(log.is_empty());
    assert!(congestion_verdict(true, true, false, &mut log));
    assert!(congestion_verdict(true, false, true, &mut log));
    assert!(!congestion_verdict(true, false, false, &mut log));
    assert_eq!(log[0], "[WARNING GRT-0115] Global routing finished with congestion. Check the congestion regions in the DRC Viewer.");
    assert_eq!(log[1], log[0]);
    assert_eq!(log[2], "[ERROR GRT-0116] Global routing finished with congestion. Check the congestion regions in the DRC Viewer.");
}

// The capacity wraps at 256, the last cell repeats its neighbour's, and the top right cell reads its usages from the
// diagonal cell.
#[test]
fn cells_hold_capacity_and_usage() {
    let e = |cap: u16, red: u16, usage: u16| CongestionEdge { cap, red, usage };
    let h = [e(250, 10, 3), e(0, 0, 1), e(7, 0, 6), e(0, 0, 0)];
    let v = [e(0, 0, 2), e(0, 5, 9), e(0, 0, 0), e(0, 0, 0)];
    let l = DbCongestionLayer { horizontal: true, h: &h, v: &v };
    assert_eq!(update_db_congestion(2, 2, &l), vec![(4, 15), (4, 15), (7, 6), (7, 10)]);
    let one = [e(9, 1, 2)];
    assert_eq!(update_db_congestion(1, 1, &DbCongestionLayer { horizontal: false, h: &one, v: &one }), vec![(0, 6)]);
}

#[test]
fn the_generator_is_mt19937() {
    let mut g = Mt19937::new(5489);
    assert_eq!(g.next_u32(), 3499211612);
    let mut last = 0;
    for _ in 1..10000 {
        last = g.next_u32();
    }
    assert_eq!(last, 4123659995);
    let mut g = Mt19937::new(MARKER_SEED);
    assert_eq!([g.next_u32(), g.next_u32(), g.next_u32()], [1608637542, 3421126067, 4083286876]);
}

#[test]
fn draws_past_the_last_bucket_are_refused() {
    assert_eq!(boost_uniform_int(&[7], 0), Some((0, 0)));
    assert_eq!(boost_uniform_int(&[u32::MAX, 5], 2), Some((0, 2)), "three buckets leave one number over");
    assert_eq!(boost_uniform_int(&[u32::MAX], 2), None);
    assert_eq!(boost_uniform_int(&[u32::MAX - 1], 2), Some((2, 1)));
}

// A shuffle keeps what it shuffles.
#[test]
fn a_shuffle_is_a_permutation() {
    let mut v = vec!["a", "b", "c"];
    let mut g = Mt19937::new(42);
    assert!(utl_shuffle(&mut v, &mut g));
    assert_eq!(v, vec!["a", "c", "b"]);
    let mut many: Vec<u32> = (0..200).collect();
    assert!(utl_shuffle(&mut many, &mut g));
    assert_ne!(many, (0..200).collect::<Vec<u32>>());
    many.sort();
    assert_eq!(many, (0..200).collect::<Vec<u32>>());
}

#[test]
fn equal_generators_shuffle_alike() {
    let (mut g, mut h) = (Mt19937::new(7), Mt19937::new(7));
    let (mut v, mut w): (Vec<u32>, Vec<u32>) = ((0..50).collect(), (0..50).collect());
    assert!(utl_shuffle(&mut v, &mut g) && utl_shuffle(&mut w, &mut h));
    assert_eq!(v, w);
    let mut one = vec![5];
    assert!(utl_shuffle(&mut one, &mut g));
    assert_eq!(one, vec![5]);
    assert_eq!(g.next_u32(), h.next_u32(), "a list of one takes no number");
}

#[test]
fn markers_name_the_nets_that_cross() {
    let (a, b) = (vec![vec![(1, 0), (0, 0)]], vec![vec![(0, 0), (1, 0), (1, 1)]]);
    let nets = [CrossingNet { name: "b", id: 2, edges: &b }, CrossingNet { name: "a", id: 1, edges: &a }];
    let h = [(2, 0, 5, 6), (1, 0, 3, 4), (0, 0, 1, 2)];
    let v = [(1, 0, 7, 8)];
    let (h, v) = congestion_markers(&h, &v, &nets, 100, (0, 0)).unwrap();
    assert_eq!(h.iter().map(|m| (m.x, m.y, m.capacity, m.usage)).collect::<Vec<_>>(), vec![(50, 50, 1, 2), (250, 50, 5, 6), (150, 50, 3, 4)]);
    assert_eq!(h[0].sources, vec!["a", "b"], "by id");
    assert!(h[1].sources.is_empty() && h[2].sources.is_empty());
    assert_eq!((v[0].x, v[0].y, v[0].sources.clone()), (150, 50, vec!["b".to_string()]));
}

fn guide(layer: i32, via_layer: i32) -> Guide {
    Guide { layer, via_layer, box_: Rect::new(0, 0, 10, 10), is_congested: false, is_jumper: false, is_connected_to_term: false }
}

// Every guide is added once, and every flag is set on the guide it belongs to.
#[test]
fn guides_are_written_in_order() {
    let mut marked = guide(2, 2);
    marked.is_jumper = true;
    let mut ended = guide(1, 2);
    ended.is_connected_to_term = true;
    let nets = [NetGuides { net: "none".into(), guides: vec![] }, NetGuides { net: "n".into(), guides: vec![marked, ended] }];
    let p = apply_guides(&nets, &[0, 1, 2]);
    assert_eq!(p.error, None);
    assert_eq!(p.written, 2);
    assert_eq!(
        p.ops,
        vec![
            GuideOp::Clear { net: 1 },
            GuideOp::Add { net: 1, guide: 0, layer: 2, via_layer: 2 },
            GuideOp::Add { net: 1, guide: 1, layer: 1, via_layer: 2 },
            GuideOp::Reverse { net: 1 },
            GuideOp::SetJumper { net: 1, guide: 0 },
            GuideOp::SetConnectedToTerm { net: 1, guide: 1 },
        ]
    );
    let p = apply_guides(&[NetGuides { net: "n".into(), guides: vec![guide(1, 1), guide(1, 9)] }], &[0, 1]);
    assert_eq!(p.error, Some("no routing layer at level 9".to_string()));
    assert_eq!(p.written, 1);
}

#[test]
fn single_precision_is_exact() {
    for n in [0u64, 1, 0xff_ffff, 0x100_0000, 0x100_0001, 0x100_0003, 0x7fff_ffff, 0xffff_ffff, 0x1fff_ffff_ffff_ffff] {
        assert_eq!(single_of(n), n as f32 as u64);
    }
    for n in [0u128, 1, 0x1f_ffff_ffff_ffff, 0x20_0000_0000_0001, 0x20_0000_0000_0003, 0xffff_ffff_ffff_ffff] {
        assert_eq!(double_of(n), n as f64 as u128);
    }
    for a in [0u32, 1, 7, 99, 100, 101, 0x100_0001, 0x7fff_ffff, 0xffff_ffff] {
        for b in [1u32, 3, 7, 100, 101, 0x100_0001, 0x7fff_ffff] {
            let q = a as f32 / b as f32;
            assert_eq!(quotient_ceil(a, b), q.ceil() as u64, "{a} / {b}");
            assert_eq!(quotient_floor(a, b), q.floor() as u64, "{a} / {b}");
        }
    }
}

#[test]
fn texts_are_aligned_and_ordered() {
    let mut s = String::new();
    push_left_aligned(&mut s, "ab", 4);
    push_right_aligned(&mut s, "cd", 4);
    push_int_right(&mut s, -5, 4);
    push_int(&mut s, i64::MIN);
    assert_eq!(s, "ab    cd  -5-9223372036854775808");
    assert!(is_text_less("a", "ab") && is_text_less("A", "a") && !is_text_less("b", "ab") && !is_text_less("x", "x"));
}
