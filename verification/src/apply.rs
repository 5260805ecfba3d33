//! The writes that put guides in the design database, in order.

use crate::lists::{all_of, lemma_all_next, lemma_all_none, lemma_sum_next, lemma_sum_none, sum_of};
use vstd::prelude::*;
use vstd::string::StringExecFns;

use crate::text::{dec, push_int};
use crate::Rect;

verus! {

/// A guide: its box, on the routing levels of its layer and of its via layer.
#[derive(Debug, Clone, Copy, PartialEq, Eq, Structural)]
pub struct Guide {
    pub layer: i32,
    pub via_layer: i32,
    pub box_: Rect,
    pub is_congested: bool,
    pub is_jumper: bool,
    pub is_connected_to_term: bool,
}

/// A net's guides, in the order of its segments.
#[derive(Debug)]
pub struct NetGuides {
    pub net: String,
    pub guides: Vec<Guide>,
}

/// A write: of a net, and of a guide of it, by their places in the lists. Layers are named by their
/// places in the database's list.
#[derive(Debug, Clone, Copy, PartialEq, Eq, Structural)]
pub enum GuideOp {
    /// Removes the net's guides.
    Clear { net: usize },
    Add { net: usize, guide: usize, layer: usize, via_layer: usize },
    /// Puts the guides, which the database lists newest first, back in order.
    Reverse { net: usize },
    SetJumper { net: usize, guide: usize },
    SetConnectedToTerm { net: usize, guide: usize },
}

/// The writes, how many guides they add, and why they end early, if they do.
#[derive(Debug)]
pub struct GuidePlan {
    pub ops: Vec<GuideOp>,
    pub written: usize,
    pub error: Option<String>,
}

/// The first of the first `n` layers on a routing level.
pub open spec fn layer_place(levels: Seq<i32>, level: i32, n: int) -> Option<usize>
    decreases n,
{
    if n <= 0 {
        None
    } else {
        match layer_place(levels, level, n - 1) {
            Some(l) => Some(l),
            None => if levels[n - 1] == level { Some((n - 1) as usize) } else { None },
        }
    }
}

/// The layer of a routing level.
pub open spec fn layer_of(levels: Seq<i32>, level: i32) -> Option<usize> {
    layer_place(levels, level, levels.len() as int)
}

/// The writes of the first `k` guides of a net, and the routing level that no layer has, if they end
/// there.
pub open spec fn adds(guides: Seq<Guide>, levels: Seq<i32>, net: int, k: int) -> (Seq<GuideOp>, Option<i32>)
    decreases k,
{
    if k <= 0 {
        (Seq::empty(), None)
    } else {
        let (ops, err) = adds(guides, levels, net, k - 1);
        let g = guides[k - 1];
        if err is Some {
            (ops, err)
        } else {
            match (layer_of(levels, g.layer), layer_of(levels, g.via_layer)) {
                (Some(layer), Some(via_layer)) => (
                    ops.push(GuideOp::Add { net: net as usize, guide: (k - 1) as usize, layer, via_layer }),
                    None,
                ),
                (None, _) => (ops, Some(g.layer)),
                (_, None) => (ops, Some(g.via_layer)),
            }
        }
    }
}

/// The flags of the first `k` guides of a net.
pub open spec fn flags(guides: Seq<Guide>, net: int, k: int) -> Seq<GuideOp>
    decreases k,
{
    if k <= 0 {
        Seq::empty()
    } else {
        let s = flags(guides, net, k - 1);
        let s = if guides[k - 1].is_jumper { s.push(GuideOp::SetJumper { net: net as usize, guide: (k - 1) as usize }) } else { s };
        if guides[k - 1].is_connected_to_term { s.push(GuideOp::SetConnectedToTerm { net: net as usize, guide: (k - 1) as usize }) } else { s }
    }
}

/// The writes of one net: its guides are cleared, added, put back in order, and flagged. A net
/// without guides is left as it is.
pub open spec fn net_ops(guides: Seq<Guide>, levels: Seq<i32>, net: int) -> (Seq<GuideOp>, Option<i32>) {
    let n = guides.len() as int;
    if n == 0 {
        (Seq::empty(), None)
    } else {
        let (ops, err) = adds(guides, levels, net, n);
        let s = seq![GuideOp::Clear { net: net as usize }] + ops;
        if err is Some { (s, err) } else { (s.push(GuideOp::Reverse { net: net as usize }) + flags(guides, net, n), None) }
    }
}

/// The writes of the first `n` nets.
pub open spec fn ops_upto(nets: Seq<NetGuides>, levels: Seq<i32>, n: int) -> (Seq<GuideOp>, Option<i32>)
    decreases n,
{
    if n <= 0 {
        (Seq::empty(), None)
    } else {
        let (ops, err) = ops_upto(nets, levels, n - 1);
        if err is Some {
            (ops, err)
        } else {
            let (more, err) = net_ops(nets[n - 1].guides@, levels, n - 1);
            (ops + more, err)
        }
    }
}

/// The number of guides that writes add.
pub open spec fn count_adds(ops: Seq<GuideOp>) -> int
    decreases ops.len(),
{
    if ops.len() == 0 { 0 } else { count_adds(ops.drop_last()) + (if ops.last() is Add { 1int } else { 0int }) }
}

fn find_layer(levels: &[i32], level: i32) -> (r: Option<usize>)
    ensures
        r == layer_of(levels@, level),
{
    let mut k: usize = 0;
    while k < levels.len()
        invariant
            k <= levels@.len(),
            layer_place(levels@, level, k as int) is None,
        decreases levels@.len() - k,
    {
        if levels[k] == level {
            proof {
                lemma_place_stays(levels@, level, k + 1, levels@.len() as int);
            }
            return Some(k);
        }
        k += 1;
    }
    None
}

proof fn lemma_place_stays(levels: Seq<i32>, level: i32, k: int, n: int)
    requires
        layer_place(levels, level, k) is Some,
        k <= n,
    ensures
        layer_place(levels, level, n) == layer_place(levels, level, k),
    decreases n,
{
    if k < n {
        lemma_place_stays(levels, level, k, n - 1);
    }
}

proof fn lemma_error_stays(guides: Seq<Guide>, levels: Seq<i32>, net: int, k: int, n: int)
    requires
        adds(guides, levels, net, k).1 is Some,
        k <= n,
    ensures
        adds(guides, levels, net, n) == adds(guides, levels, net, k),
    decreases n,
{
    if k < n {
        lemma_error_stays(guides, levels, net, k, n - 1);
    }
}

proof fn lemma_ops_error_stays(nets: Seq<NetGuides>, levels: Seq<i32>, k: int, n: int)
    requires
        ops_upto(nets, levels, k).1 is Some,
        k <= n,
    ensures
        ops_upto(nets, levels, n) == ops_upto(nets, levels, k),
    decreases n,
{
    if k < n {
        lemma_ops_error_stays(nets, levels, k, n - 1);
    }
}

/// Adds the writes of a net's guides. Returns the routing level that no layer has, if they end there.
fn push_adds(guides: &Vec<Guide>, levels: &[i32], net: usize, ops: &mut Vec<GuideOp>, written: &mut usize) -> (err: Option<i32>)
    requires
        *old(written) == count_adds(old(ops)@),
        old(ops)@.len() + guides@.len() <= usize::MAX,
        *old(written) <= old(ops)@.len(),
    ensures
        final(ops)@ == old(ops)@ + adds(guides@, levels@, net as int, guides@.len() as int).0,
        err == adds(guides@, levels@, net as int, guides@.len() as int).1,
        *final(written) == count_adds(final(ops)@),
        *final(written) <= final(ops)@.len(),
        final(ops)@.len() <= old(ops)@.len() + guides@.len(),
{
    let ghost s0 = ops@;
    let mut k: usize = 0;
    while k < guides.len()
        invariant
            k <= guides@.len(),
            s0 == old(ops)@,
            s0.len() + guides@.len() <= usize::MAX,
            ops@ == s0 + adds(guides@, levels@, net as int, k as int).0,
            adds(guides@, levels@, net as int, k as int).1 is None,
            *written == count_adds(ops@),
            *written <= ops@.len(),
            ops@.len() == s0.len() + k,
        decreases guides@.len() - k,
    {
        let g = guides[k];
        let layer = match find_layer(levels, g.layer) {
            Some(l) => l,
            None => {
                proof {
                    lemma_error_stays(guides@, levels@, net as int, k + 1, guides@.len() as int);
                }
                return Some(g.layer);
            },
        };
        let via_layer = match find_layer(levels, g.via_layer) {
            Some(l) => l,
            None => {
                proof {
                    lemma_error_stays(guides@, levels@, net as int, k + 1, guides@.len() as int);
                }
                return Some(g.via_layer);
            },
        };
        let ghost before = ops@;
        ops.push(GuideOp::Add { net, guide: k, layer, via_layer });
        *written = *written + 1;
        proof {
            assert(ops@.drop_last() =~= before);
            assert(ops@ =~= s0 + adds(guides@, levels@, net as int, k + 1).0);
        }
        k += 1;
    }
    None
}

proof fn lemma_other_op(ops: Seq<GuideOp>, op: GuideOp)
    requires
        !(op is Add),
    ensures
        count_adds(ops.push(op)) == count_adds(ops),
{
    assert(ops.push(op).drop_last() =~= ops);
}

fn push_flags(guides: &Vec<Guide>, net: usize, ops: &mut Vec<GuideOp>)
    ensures
        final(ops)@ == old(ops)@ + flags(guides@, net as int, guides@.len() as int),
        count_adds(final(ops)@) == count_adds(old(ops)@),
        final(ops)@.len() >= old(ops)@.len(),
{
    let ghost s0 = ops@;
    let mut k: usize = 0;
    while k < guides.len()
        invariant
            k <= guides@.len(),
            ops@ == s0 + flags(guides@, net as int, k as int),
            count_adds(ops@) == count_adds(s0),
        decreases guides@.len() - k,
    {
        let g = guides[k];
        if g.is_jumper {
            proof {
                lemma_other_op(ops@, GuideOp::SetJumper { net, guide: k });
            }
            ops.push(GuideOp::SetJumper { net, guide: k });
        }
        if g.is_connected_to_term {
            proof {
                lemma_other_op(ops@, GuideOp::SetConnectedToTerm { net, guide: k });
            }
            ops.push(GuideOp::SetConnectedToTerm { net, guide: k });
        }
        assert(ops@ =~= s0 + flags(guides@, net as int, k + 1));
        k += 1;
    }
}

/// The number of guides of the first `n` nets.
pub open spec fn guide_count(nets: Seq<NetGuides>, n: int) -> int
    decreases n,
{
    if n <= 0 { 0 } else { guide_count(nets, n - 1) + nets[n - 1].guides@.len() }
}

/// The writes of every net's guides: per net, clear its guides, write the new ones in the order of
/// its segments, put the set back into that order, and set the flags. A net without guides is
/// skipped, not cleared.
///
/// The writes end with an error at the first routing level that no layer has.
pub fn apply_guides(nets: &[NetGuides], levels: &[i32]) -> (p: GuidePlan)
    requires
        4 * guide_count(nets@, nets@.len() as int) + 2 * nets@.len() <= usize::MAX,
    ensures
        p.ops@ == ops_upto(nets@, levels@, nets@.len() as int).0,
        p.written == count_adds(p.ops@),
        match ops_upto(nets@, levels@, nets@.len() as int).1 {
            None => p.error is None,
            Some(level) => p.error matches Some(e) && e@ == "no routing layer at level "@ + dec(level as int),
        },
{
    let mut ops: Vec<GuideOp> = Vec::new();
    let mut written: usize = 0;
    let mut n: usize = 0;
    while n < nets.len()
        invariant
            n <= nets@.len(),
            4 * guide_count(nets@, nets@.len() as int) + 2 * nets@.len() <= usize::MAX,
            ops@ == ops_upto(nets@, levels@, n as int).0,
            ops_upto(nets@, levels@, n as int).1 is None,
            written == count_adds(ops@),
            written <= ops@.len(),
            ops@.len() <= 4 * guide_count(nets@, n as int) + 2 * n,
        decreases nets@.len() - n,
    {
        proof {
            lemma_guides_grow(nets@, n + 1, nets@.len() as int);
            lemma_flag_count(nets@[n as int].guides@, n as int, nets@[n as int].guides@.len() as int);
        }
        let guides = &nets[n].guides;
        if guides.len() > 0 {
            let ghost s0 = ops@;
            proof {
                lemma_other_op(ops@, GuideOp::Clear { net: n });
            }
            ops.push(GuideOp::Clear { net: n });
            match push_adds(guides, levels, n, &mut ops, &mut written) {
                Some(level) => {
                    proof {
                        assert(ops@ =~= s0 + net_ops(guides@, levels@, n as int).0);
                        lemma_ops_error_stays(nets@, levels@, n + 1, nets@.len() as int);
                    }
                    let mut e = String::from_str("no routing layer at level ");
                    push_int(&mut e, level as i64);
                    return GuidePlan { ops, written, error: Some(e) };
                },
                None => {},
            }
            proof {
                lemma_other_op(ops@, GuideOp::Reverse { net: n });
            }
            ops.push(GuideOp::Reverse { net: n });
            push_flags(guides, n, &mut ops);
            assert(ops@ =~= s0 + net_ops(guides@, levels@, n as int).0);
        } else {
            assert(ops@ =~= ops@ + net_ops(guides@, levels@, n as int).0);
        }
        n += 1;
    }
    GuidePlan { ops, written, error: None }
}

proof fn lemma_guides_grow(nets: Seq<NetGuides>, a: int, b: int)
    requires
        0 <= a <= b,
    ensures
        0 <= guide_count(nets, a) <= guide_count(nets, b),
    decreases b,
{
    if a < b {
        lemma_guides_grow(nets, a, b - 1);
    } else if a > 0 {
        lemma_guides_grow(nets, a - 1, a - 1);
    }
}

proof fn lemma_flag_count(guides: Seq<Guide>, net: int, k: int)
    requires
        0 <= k,
    ensures
        flags(guides, net, k).len() <= 2 * k,
    decreases k,
{
    if k > 0 {
        lemma_flag_count(guides, net, k - 1);
    }
}

/// Where every layer is known, the guides that are written are those of all nets.
pub proof fn every_guide_is_written(guides: Seq<Guide>, levels: Seq<i32>, net: int, k: int)
    requires
        0 <= k <= guides.len(),
        forall|i: int| 0 <= i < guides.len() ==> layer_of(levels, (#[trigger] guides[i]).layer) is Some && layer_of(levels, guides[i].via_layer) is Some,
    ensures
        adds(guides, levels, net, k).1 is None,
        adds(guides, levels, net, k).0.len() == k,
    decreases k,
{
    if k > 0 {
        every_guide_is_written(guides, levels, net, k - 1);
    }
}

/// The guides counted are those of all nets.
pub proof fn the_guides_are_counted_over_all_nets(nets: Seq<NetGuides>, n: int)
    requires
        0 <= n,
    ensures
        guide_count(nets, n) == sum_of(
            n,
            |k: int| nets[k].guides@.len() as int,
        ),
    decreases n,
{
    let f = |k: int| nets[k].guides@.len() as int;
    if n > 0 {
        the_guides_are_counted_over_all_nets(nets, n - 1);
        lemma_sum_next(n - 1, f);
    } else {
        lemma_sum_none(f);
    }
}

/// A guide that is a jumper is marked so, and then one that is connected to a terminal, guide by
/// guide.
pub proof fn every_flag_of_a_guide_is_set(guides: Seq<Guide>, net: int, n: int)
    requires
        0 <= n,
    ensures
        flags(guides, net, n) == all_of(
            n,
            |k: int| (if guides[k].is_jumper { seq![GuideOp::SetJumper { net: net as usize, guide: k as usize }] } else { Seq::empty() }) + (if guides[k].is_connected_to_term { seq![GuideOp::SetConnectedToTerm { net: net as usize, guide: k as usize }] } else { Seq::empty() }),
        ),
    decreases n,
{
    let f = |k: int| (if guides[k].is_jumper { seq![GuideOp::SetJumper { net: net as usize, guide: k as usize }] } else { Seq::empty() }) + (if guides[k].is_connected_to_term { seq![GuideOp::SetConnectedToTerm { net: net as usize, guide: k as usize }] } else { Seq::empty() });
    if n > 0 {
        every_flag_of_a_guide_is_set(guides, net, n - 1);
        lemma_all_next(n - 1, f);
    } else {
        lemma_all_none(f);
    }
    assert(flags(guides, net, n) =~= all_of(n, f));
}

} // verus!
