//! Which nets a netlist edit marks dirty while routing is incremental.
//!
//! A terminal disconnected or connected marks its net, when the net is set and not special and the
//! router holds it. A net created is added; a net destroyed is removed, which takes it out of the
//! dirty set.

use vstd::prelude::*;
use vstd::string::StringExecFns;

use crate::text::{push_text, texts};

verus! {

/// The nets marked dirty, and a trace of the events.
#[derive(Debug)]
pub struct DirtyNets {
    dirty: Vec<String>,
    /// The records since the last [`DirtyNets::take_trace`].
    trace: Vec<String>,
}

/// The names of a list of nets.
pub open spec fn names(v: Seq<String>) -> Set<Seq<char>> {
    texts(v).to_set()
}

/// Whether one of the first `n` names is `name`.
pub open spec fn name_among(v: Seq<String>, n: int, name: Seq<char>) -> bool {
    exists|i: int| 0 <= i < n && (#[trigger] v[i])@ == name
}

/// The record of a terminal (dis)connected.
pub open spec fn dirty_record(net: Seq<char>, held: bool) -> Seq<char> {
    "VYGC|cb|dirty|"@ + net + (if held { "|held=1"@ } else { "|held=0"@ })
}

/// The record of a net created.
pub open spec fn add_record(net: Seq<char>, made: bool) -> Seq<char> {
    "VYGC|cb|add|"@ + net + (if made { "|made=1"@ } else { "|made=0"@ })
}

/// The nets of `order` that are dirty, in its order.
pub open spec fn dirty_in_order(dirty: Set<Seq<char>>, order: Seq<String>) -> Seq<Seq<char>>
    decreases order.len(),
{
    if order.len() == 0 {
        Seq::empty()
    } else {
        let rest = dirty_in_order(dirty, order.drop_last());
        if dirty.contains(order.last()@) { rest.push(order.last()@) } else { rest }
    }
}

fn position(v: &Vec<String>, name: &str) -> (r: Option<usize>)
    ensures
        match r {
            Some(i) => i < v@.len() && v@[i as int]@ == name@,
            None => !name_among(v@, v@.len() as int, name@),
        },
{
    let mut i: usize = 0;
    while i < v.len()
        invariant
            i <= v@.len(),
            !name_among(v@, i as int, name@),
        decreases v@.len() - i,
    {
        if same_text(v[i].as_str(), name) {
            return Some(i);
        }
        i += 1;
        assert(!name_among(v@, i as int, name@)) by {
            if name_among(v@, i as int, name@) {
                let j = choose|j: int| 0 <= j < i && (#[trigger] v@[j])@ == name@;
                if j < i - 1 {
                    assert(name_among(v@, i - 1, name@));
                }
            }
        }
    }
    None
}

/// Whether two texts are the same.
pub fn same_text(a: &str, b: &str) -> (r: bool)
    ensures
        r == (a@ == b@),
{
    String::from_str(a) == String::from_str(b)
}

proof fn lemma_names(v: Seq<String>, name: Seq<char>)
    ensures
        names(v).contains(name) <==> name_among(v, v.len() as int, name),
{
    let t = texts(v);
    if names(v).contains(name) {
        let i = choose|i: int| 0 <= i < t.len() && t[i] == name;
        assert(v[i]@ == name);
    }
    if name_among(v, v.len() as int, name) {
        let i = choose|i: int| 0 <= i < v.len() && (#[trigger] v[i])@ == name;
        assert(t[i] == name);
    }
}

impl DirtyNets {
    /// The nets marked dirty.
    pub closed spec fn marked(&self) -> Set<Seq<char>> {
        names(self.dirty@)
    }

    /// The records since the trace was last taken.
    pub closed spec fn records(&self) -> Seq<Seq<char>> {
        texts(self.trace@)
    }

    /// A terminal of `net` connected or disconnected. A net without a name or a special one is left
    /// alone; any other is recorded, and marked if the router holds it.
    pub fn mark(&mut self, net: &str, special: bool, held: bool)
        ensures
            net@.len() == 0 || special ==> final(self).marked() == old(self).marked() && final(self).records() == old(self).records(),
            !(net@.len() == 0 || special) ==> {
                &&& final(self).records() == old(self).records().push(dirty_record(net@, held))
                &&& final(self).marked() == (if held { old(self).marked().insert(net@) } else { old(self).marked() })
            },
    {
        let empty = String::new();
        if same_text(net, empty.as_str()) || special {
            assert(net@ == Seq::<char>::empty() || special);
            return;
        }
        assert(net@.len() != 0) by {
            if net@.len() == 0 {
                assert(net@ =~= Seq::<char>::empty());
            }
        }
        let mut s = String::from_str("VYGC|cb|dirty|");
        s.append(net);
        if held {
            s.append("|held=1");
        } else {
            s.append("|held=0");
        }
        push_text(&mut self.trace, s);
        if held {
            match position(&self.dirty, net) {
                Some(i) => {
                    proof {
                        lemma_names(self.dirty@, net@);
                        assert(name_among(self.dirty@, self.dirty@.len() as int, net@));
                        assert(old(self).marked().insert(net@) =~= old(self).marked());
                    }
                },
                None => {
                    let ghost v = self.dirty@;
                    push_text(&mut self.dirty, String::from_str(net));
                    proof {
                        let w = self.dirty@;
                        assert forall|n: Seq<char>| names(w).contains(n) == names(v).insert(net@).contains(n) by {
                            lemma_names(v, n);
                            lemma_names(w, n);
                            if name_among(w, w.len() as int, n) {
                                let i = choose|i: int| 0 <= i < w.len() && (#[trigger] w[i])@ == n;
                                if i < v.len() {
                                    assert(v[i]@ == n);
                                }
                            }
                            if name_among(v, v.len() as int, n) {
                                let i = choose|i: int| 0 <= i < v.len() && (#[trigger] v[i])@ == n;
                                assert(w[i]@ == n);
                            }
                            if n == net@ {
                                assert(w[v.len() as int]@ == n);
                            }
                        }
                        assert(names(w) =~= names(v).insert(net@));
                    }
                },
            }
        }
    }

    /// A net created: `made` when it is routable and the router now holds it.
    pub fn added(&mut self, net: &str, made: bool)
        ensures
            final(self).records() == old(self).records().push(add_record(net@, made)),
            final(self).marked() == old(self).marked(),
    {
        let mut s = String::from_str("VYGC|cb|add|");
        s.append(net);
        if made {
            s.append("|made=1");
        } else {
            s.append("|made=0");
        }
        push_text(&mut self.trace, s);
    }

    /// A net destroyed: it leaves the dirty set, so a later net of its name is dirty only if marked.
    pub fn removed(&mut self, net: &str)
        ensures
            final(self).records() == old(self).records().push("VYGC|cb|remove|"@ + net@),
            final(self).marked() == old(self).marked().remove(net@),
    {
        let mut s = String::from_str("VYGC|cb|remove|");
        s.append(net);
        push_text(&mut self.trace, s);
        let ghost v = self.dirty@;
        let mut kept: Vec<String> = Vec::new();
        let mut i: usize = 0;
        while i < self.dirty.len()
            invariant
                i <= self.dirty@.len(),
                self.dirty@ == v,
                self.trace@ == self.trace@,
                forall|n: Seq<char>| #[trigger] name_among(kept@, kept@.len() as int, n) <==> n != net@ && name_among(v, i as int, n),
            decreases v.len() - i,
        {
            let ghost k0 = kept@;
            if !same_text(self.dirty[i].as_str(), net) {
                kept.push(self.dirty[i].clone());
            }
            i += 1;
            proof {
                assert forall|n: Seq<char>| #[trigger] name_among(kept@, kept@.len() as int, n) <==> n != net@ && name_among(v, i as int, n) by {
                    let (a, b) = (name_among(kept@, kept@.len() as int, n), n != net@ && name_among(v, i as int, n));
                    assert(name_among(k0, k0.len() as int, n) <==> n != net@ && name_among(v, i - 1, n));
                    if a {
                        let j = choose|j: int| 0 <= j < kept@.len() && (#[trigger] kept@[j])@ == n;
                        if j < k0.len() {
                            assert(k0[j]@ == n);
                            let m = choose|m: int| 0 <= m < i - 1 && (#[trigger] v[m])@ == n;
                            assert(v[m]@ == n);
                        } else {
                            assert(v[i - 1]@ == n);
                        }
                    }
                    if b {
                        let m = choose|m: int| 0 <= m < i && (#[trigger] v[m])@ == n;
                        if m < i - 1 {
                            assert(name_among(v, i - 1, n));
                            let j = choose|j: int| 0 <= j < k0.len() && (#[trigger] k0[j])@ == n;
                            assert(kept@[j]@ == n);
                        } else {
                            assert(kept@[k0.len() as int]@ == n);
                        }
                    }
                }
            }
        }
        self.dirty = kept;
        proof {
            assert forall|n: Seq<char>| names(kept@).contains(n) == names(v).remove(net@).contains(n) by {
                lemma_names(kept@, n);
                lemma_names(v, n);
                assert(name_among(kept@, kept@.len() as int, n) <==> n != net@ && name_among(v, v.len() as int, n));
            }
            assert(names(kept@) =~= names(v).remove(net@));
        }
    }

    /// The dirty nets in the block's order.
    pub fn in_block_order(&self, order: &[String]) -> (r: Vec<String>)
        ensures
            texts(r@) == dirty_in_order(self.marked(), order@),
    {
        let mut out: Vec<String> = Vec::new();
        let mut i: usize = 0;
        assert(texts(out@) =~= dirty_in_order(self.marked(), order@.take(0)));
        while i < order.len()
            invariant
                i <= order@.len(),
                texts(out@) == dirty_in_order(self.marked(), order@.take(i as int)),
            decreases order@.len() - i,
        {
            proof {
                assert(order@.take(i + 1).drop_last() =~= order@.take(i as int));
                assert(order@.take(i + 1).last() == order@[i as int]);
                lemma_names(self.dirty@, order@[i as int]@);
            }
            match position(&self.dirty, order[i].as_str()) {
                Some(k) => {
                    assert(name_among(self.dirty@, self.dirty@.len() as int, order@[i as int]@));
                    push_text(&mut out, order[i].clone());
                },
                None => {},
            }
            i += 1;
        }
        assert(order@.take(i as int) =~= order@);
        out
    }

    /// Takes the trace, leaving it empty.
    pub fn take_trace(&mut self) -> (r: Vec<String>)
        ensures
            texts(r@) == old(self).records(),
            final(self).records() == Seq::<Seq<char>>::empty(),
            final(self).marked() == old(self).marked(),
    {
        let mut t: Vec<String> = Vec::new();
        core::mem::swap(&mut t, &mut self.trace);
        assert(texts(self.trace@) =~= Seq::<Seq<char>>::empty());
        t
    }
}

impl Default for DirtyNets {
    fn default() -> (d: DirtyNets)
        ensures
            d.marked() == Set::<Seq<char>>::empty(),
            d.records() == Seq::<Seq<char>>::empty(),
    {
        let d = DirtyNets { dirty: Vec::new(), trace: Vec::new() };
        assert(d.records() =~= Seq::<Seq<char>>::empty());
        assert forall|n: Seq<char>| !d.marked().contains(n) by {
            lemma_names(d.dirty@, n);
        }
        assert(d.marked() =~= Set::<Seq<char>>::empty());
        d
    }
}

/// A net destroyed and created again is not dirty, whatever marked it before.
pub proof fn a_recreated_net_is_clean(dirty: Set<Seq<char>>, net: Seq<char>, order: Seq<String>)
    ensures
        !dirty_in_order(dirty.remove(net), order).contains(net),
    decreases order.len(),
{
    if order.len() > 0 {
        a_recreated_net_is_clean(dirty, net, order.drop_last());
        let rest = dirty_in_order(dirty.remove(net), order.drop_last());
        let all = dirty_in_order(dirty.remove(net), order);
        if all.contains(net) {
            let i = choose|i: int| 0 <= i < all.len() && all[i] == net;
            if i < rest.len() {
                assert(rest[i] == net);
            }
        }
    }
}

/// The dirty nets in order are the names of the order that are dirty, each as often as it stands there.
pub proof fn the_dirty_nets_come_in_order(dirty: Set<Seq<char>>, order: Seq<String>)
    ensures
        dirty_in_order(dirty, order) == order.map_values(|s: String| s@).filter(|n: Seq<char>| dirty.contains(n)),
    decreases order.len(),
{
    reveal(Seq::filter);
    let f = |s: String| s@;
    if order.len() > 0 {
        the_dirty_nets_come_in_order(dirty, order.drop_last());
        assert(order.map_values(f).drop_last() =~= order.drop_last().map_values(f));
    } else {
        assert(order.map_values(f) =~= Seq::empty());
    }
    assert(dirty_in_order(dirty, order) =~= order.map_values(|s: String| s@).filter(|n: Seq<char>| dirty.contains(n)));
}

} // verus!
