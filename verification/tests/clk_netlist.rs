use vyges_grt::clk_netlist::{build_netlist, split_term, ArcFacts, CellFacts, ClkDesign, ClkFacts, ClkFactsError, NetFacts, PortOnNet, TermOnNet};
use vyges_grt::clk_network::{find_clk_nets, ClkNetworkError};

fn port(name: &str, io: &str) -> PortOnNet {
    PortOnNet { name: name.into(), io: io.into() }
}

fn term(path: &str, io: &str, cell: Option<usize>) -> TermOnNet {
    TermOnNet { path: path.into(), io: io.into(), cell }
}

fn net(name: &str, sig_type: &str, ports: Vec<PortOnNet>, terms: Vec<TermOnNet>) -> NetFacts {
    NetFacts { name: name.into(), sig_type: sig_type.into(), ports, terms }
}

fn arc(from: &str, to: &str, is_combinational: bool) -> ArcFacts {
    ArcFacts { from: from.into(), to: to.into(), is_combinational }
}

fn cell(name: &str, arcs: Vec<ArcFacts>, terms: &[&str], may_infer: bool) -> CellFacts {
    CellFacts { name: name.into(), arcs, terms: terms.iter().map(|t| t.to_string()).collect(), may_infer }
}

/// A clock port through a buffer to a register, whose output goes on.
fn facts() -> ClkFacts {
    ClkFacts {
        nets: vec![
            net("vdd", "POWER", vec![port("p", "INOUT")], vec![]),
            net("clk", "CLOCK", vec![port("clk", "INPUT")], vec![term("b1/A", "INPUT", Some(0))]),
            net("leaf", "SIGNAL", vec![], vec![term("b1/Y", "OUTPUT", Some(0)), term("r/CK", "INPUT", Some(1)), term("odd", "FEEDTHRU", None)]),
            net("q", "SIGNAL", vec![port("out", "OUTPUT")], vec![term("r/Q", "OUTPUT", Some(1))]),
        ],
        cells: vec![cell("BUF", vec![arc("A", "Y", true), arc("A", "Z", true)], &["A", "Y"], false), cell("DFF", vec![arc("CK", "Q", false)], &["CK", "Q"], false)],
        sources: vec!["clk".into()],
    }
}

fn names(d: &ClkDesign) -> Vec<String> {
    d.pins.iter().map(|p| if p.is_term { format!("{}/{}", p.owner, p.term) } else { p.owner.clone() }).collect()
}

#[test]
fn a_netlist_is_built_from_facts() {
    let d = build_netlist(&facts()).unwrap();
    assert_eq!(names(&d), vec!["clk", "out", "b1/A", "b1/Y", "r/CK", "r/Q"], "ports before terminals, a supply's pins left out");
    assert_eq!(d.net_names, vec!["clk", "leaf", "q"]);
    assert_eq!(d.graph.nets, vec![vec![(0, true), (2, false)], vec![(3, true), (4, false)], vec![(1, false), (5, true)]]);
    assert_eq!(d.graph.arcs, vec![vec![], vec![], vec![3], vec![], vec![], vec![]], "no arc to a terminal that is not there, and none from a clock pin");
    assert_eq!(d.graph.sources, vec![0]);
    assert_eq!(d.cells, vec![None, None, Some(0), Some(0), Some(1), Some(1)]);
    let nets = find_clk_nets(&d.graph).unwrap();
    assert_eq!(nets.iter().map(|&n| d.net_names[n].as_str()).collect::<Vec<_>>(), vec!["clk", "leaf"]);
    assert_eq!(split_term("a/b/c"), Some(("a", "b/c")));
    assert_eq!(split_term("abc"), None);
}

// An arc may end at a terminal that is on no net.
#[test]
fn an_arc_brings_its_own_pin() {
    let mut f = facts();
    f.cells[0].terms.push("Z".into());
    let d = build_netlist(&f).unwrap();
    assert_eq!(names(&d), vec!["clk", "out", "b1/A", "b1/Y", "b1/Z", "r/CK", "r/Q"]);
    assert_eq!(d.graph.arcs[2], vec![3, 4]);
}

#[test]
fn the_first_net_that_cannot_be_followed_is_told() {
    let mut f = facts();
    f.nets[3].ports[0].io = "INOUT".into();
    f.nets[2].terms[1].io = "INOUT".into();
    let e = build_netlist(&f).unwrap_err();
    assert!(matches!(&e, ClkFactsError::TermDirection { path, .. } if path == "r/CK"));
    assert_eq!(e.message(), "clock network: r/CK has direction INOUT \u{2014} not modelled");
    f.nets[2].terms[1].io = "INPUT".into();
    assert_eq!(build_netlist(&f).unwrap_err().message(), "clock network: port on net q has direction INOUT \u{2014} not modelled");
    f.nets[1].terms = (0..9).map(|k| term(&format!("u{k}/Y"), "OUTPUT", None)).collect();
    assert_eq!(build_netlist(&f).unwrap_err().message(), "clock network: net clk has 10 drivers \u{2014} isIsolatedNet is not modelled", "before the next net's direction");
}

#[test]
fn a_refused_network_is_told_by_name() {
    let mut f = facts();
    f.sources.push("lost".into());
    let d = build_netlist(&f).unwrap();
    let e = find_clk_nets(&d.graph).unwrap_err();
    assert_eq!(e.message(&f, &d), "clock source Port(\"lost\"): no such connected port");
    let mut f = facts();
    f.cells[0].may_infer = true;
    let d = build_netlist(&f).unwrap();
    let e = find_clk_nets(&d.graph).unwrap_err();
    assert_eq!(e.message(&f, &d), "clock network through b1 (BUF): inferLatchRoles may re-type its arcs \u{2014} not modelled");
    let mut f = facts();
    f.cells[0].arcs.push(arc("Y", "A", true));
    let d = build_netlist(&f).unwrap();
    let e = find_clk_nets(&d.graph).unwrap_err();
    assert!(e.message(&f, &d).starts_with("clock network: a combinational loop through ITerm(\"b1\", \""));
    assert_eq!((ClkNetworkError::TooManyDrivers { net: 1, drivers: 10 }).message(&f, &d), "clock network: net leaf has 10 drivers \u{2014} isIsolatedNet is not modelled");
}
