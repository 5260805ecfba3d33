use vyges_grt::callbacks::DirtyNets;

// A net that the router does not hold is recorded but not marked; a special net and one without a name are
// neither.
#[test]
fn an_unheld_net_is_not_marked() {
    let mut d = DirtyNets::default();
    d.mark("a", false, false);
    d.mark("b", false, true);
    d.mark("s", true, true);
    d.mark("", false, true);
    let order = ["a", "b", "s"].map(String::from);
    assert_eq!(d.in_block_order(&order), vec!["b".to_string()]);
    assert_eq!(d.take_trace(), vec!["VYGC|cb|dirty|a|held=0".to_string(), "VYGC|cb|dirty|b|held=1".to_string()]);
}

// A destroyed net leaves the dirty set: one created under its name later is clean.
#[test]
fn a_destroyed_net_leaves_the_dirty_set() {
    let mut d = DirtyNets::default();
    d.mark("n", false, true);
    d.removed("n");
    d.added("n", true);
    assert!(d.in_block_order(&["n".to_string()]).is_empty());
}

#[test]
fn dirty_nets_come_in_block_order_once() {
    let mut d = DirtyNets::default();
    d.mark("z", false, true);
    d.mark("a", false, true);
    d.mark("z", false, true);
    assert_eq!(d.in_block_order(&["a".to_string(), "m".to_string(), "z".to_string()]), vec!["a".to_string(), "z".to_string()]);
    assert_eq!(d.take_trace().len(), 3);
    assert!(d.take_trace().is_empty());
}
