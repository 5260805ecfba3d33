//! The netlist that a clock network is searched in, out of what the database and the libraries say.
//!
//! Supply nets have no pins here. A port of the block drives its net where it is an input and loads it where it is
//! an output; an instance's terminal the other way round; no other direction is followed. From a terminal lead the
//! combinational arcs of its cell, to those terminals that the instance has.

use crate::lists::{all_of, count_of, is_first_of, lemma_all_next, lemma_all_none, lemma_count_next, lemma_count_none};
use vstd::prelude::*;
use vstd::string::{StrSliceExecFns, StringExecFns};

use crate::callbacks::same_text;
use crate::clk_network::{ascending, crowded, driver_count, ClkNetlist, ClkNetworkError, DRIVER_LIMIT};
use crate::text::{dec, is_text_less, lemma_text_less_trans, lemma_text_order, push_nat, text_less};

verus! {

// ---- facts ----

/// A port of the block on a net, and its direction.
#[derive(Debug)]
pub struct PortOnNet {
    pub name: String,
    pub io: String,
}

/// An instance's terminal on a net: the instance's name and the terminal's with a slash between, its direction, and
/// the cell of the instance, where a library has it.
#[derive(Debug)]
pub struct TermOnNet {
    pub path: String,
    pub io: String,
    pub cell: Option<usize>,
}

/// A net.
#[derive(Debug)]
pub struct NetFacts {
    pub name: String,
    pub sig_type: String,
    pub ports: Vec<PortOnNet>,
    pub terms: Vec<TermOnNet>,
}

/// A timing arc of a cell.
#[derive(Debug)]
pub struct ArcFacts {
    pub from: String,
    pub to: String,
    pub is_combinational: bool,
}

/// A cell: its name, its arcs, the terminals that its master has, and whether its latch roles may be inferred.
#[derive(Debug)]
pub struct CellFacts {
    pub name: String,
    pub arcs: Vec<ArcFacts>,
    pub terms: Vec<String>,
    pub may_infer: bool,
}

/// What the netlist is built from. The sources are the ports that clocks are defined on.
#[derive(Debug)]
pub struct ClkFacts {
    pub nets: Vec<NetFacts>,
    pub cells: Vec<CellFacts>,
    pub sources: Vec<String>,
}

/// A pin: a port of the block, or the terminal of an instance.
#[derive(Debug)]
pub struct ClkPin {
    pub is_term: bool,
    /// The port, or the instance.
    pub owner: String,
    /// The terminal; empty for a port.
    pub term: String,
}

#[verifier::ext_equal]
pub struct PinModel {
    pub is_term: bool,
    pub owner: Seq<char>,
    pub term: Seq<char>,
}

impl View for ClkPin {
    type V = PinModel;

    open spec fn view(&self) -> PinModel {
        PinModel { is_term: self.is_term, owner: self.owner@, term: self.term@ }
    }
}

pub open spec fn port_pin(name: Seq<char>) -> PinModel {
    PinModel { is_term: false, owner: name, term: Seq::empty() }
}

pub open spec fn term_pin(inst: Seq<char>, term: Seq<char>) -> PinModel {
    PinModel { is_term: true, owner: inst, term }
}

// ---- the order of pins ----

/// Whether a pin comes before another: ports before terminals, then by name.
pub open spec fn pin_less(a: PinModel, b: PinModel) -> bool {
    if a.is_term != b.is_term {
        b.is_term
    } else {
        text_less(a.owner, b.owner) || (a.owner == b.owner && text_less(a.term, b.term))
    }
}

proof fn lemma_pin_order(a: PinModel, b: PinModel)
    ensures
        a == b ==> !pin_less(a, b),
        a != b ==> pin_less(a, b) || pin_less(b, a),
        !(pin_less(a, b) && pin_less(b, a)),
{
    lemma_text_order(a.owner, b.owner);
    lemma_text_order(a.term, b.term);
}

proof fn lemma_pin_less_trans(a: PinModel, b: PinModel, c: PinModel)
    requires
        pin_less(a, b),
        pin_less(b, c),
    ensures
        pin_less(a, c),
{
    if a.is_term == b.is_term && b.is_term == c.is_term {
        if text_less(a.owner, b.owner) && text_less(b.owner, c.owner) {
            lemma_text_less_trans(a.owner, b.owner, c.owner);
        }
        if text_less(a.term, b.term) && text_less(b.term, c.term) {
            lemma_text_less_trans(a.term, b.term, c.term);
        }
    }
}

fn is_pin_less(a: &ClkPin, b: &ClkPin) -> (r: bool)
    ensures
        r == pin_less(a@, b@),
{
    if a.is_term != b.is_term {
        return b.is_term;
    }
    if is_text_less(a.owner.as_str(), b.owner.as_str()) {
        return true;
    }
    same_text(a.owner.as_str(), b.owner.as_str()) && is_text_less(a.term.as_str(), b.term.as_str())
}

/// Whether pins stand in order, each once.
pub open spec fn in_order(v: Seq<ClkPin>) -> bool {
    forall|i: int, j: int| 0 <= i < j < v.len() ==> pin_less((#[trigger] v[i])@, (#[trigger] v[j])@)
}

/// Whether a pin is among pins.
pub open spec fn is_pin_of(v: Seq<ClkPin>, p: PinModel) -> bool {
    exists|i: int| 0 <= i < v.len() && (#[trigger] v[i])@ == p
}

/// The place of a pin, or the one where it would stand.
fn place_of(v: &Vec<ClkPin>, p: &ClkPin) -> (at: usize)
    requires
        in_order(v@),
    ensures
        at <= v@.len(),
        forall|i: int| 0 <= i < at ==> pin_less((#[trigger] v@[i])@, p@),
        forall|i: int| at <= i < v@.len() ==> !pin_less((#[trigger] v@[i])@, p@),
        is_pin_of(v@, p@) <==> at < v@.len() && v@[at as int]@ == p@,
{
    let mut lo: usize = 0;
    let mut hi: usize = v.len();
    while lo < hi
        invariant
            in_order(v@),
            lo <= hi <= v@.len(),
            forall|i: int| 0 <= i < lo ==> pin_less((#[trigger] v@[i])@, p@),
            forall|i: int| hi <= i < v@.len() ==> !pin_less((#[trigger] v@[i])@, p@),
        decreases hi - lo,
    {
        let mid: usize = lo + (hi - lo) / 2;
        if is_pin_less(&v[mid], p) {
            proof {
                assert forall|i: int| 0 <= i < mid + 1 implies pin_less((#[trigger] v@[i])@, p@) by {
                    if i < mid {
                        lemma_pin_less_trans(v@[i]@, v@[mid as int]@, p@);
                    }
                }
            }
            lo = mid + 1;
        } else {
            proof {
                assert forall|i: int| mid <= i < v@.len() implies !pin_less((#[trigger] v@[i])@, p@) by {
                    if i > mid && pin_less(v@[i]@, p@) {
                        lemma_pin_less_trans(v@[mid as int]@, v@[i]@, p@);
                    }
                }
            }
            hi = mid;
        }
    }
    proof {
        if is_pin_of(v@, p@) {
            let i = choose|i: int| 0 <= i < v@.len() && (#[trigger] v@[i])@ == p@;
            lemma_pin_order(v@[i]@, p@);
            assert(i >= lo);
            if i > lo {
                assert(pin_less(v@[lo as int]@, v@[i]@));
            }
        }
    }
    lo
}

/// Pins with the cells of their instances, one by one.
struct PinTable {
    pins: Vec<ClkPin>,
    cells: Vec<Option<usize>>,
}

impl PinTable {
    spec fn wf(&self) -> bool {
        self.pins@.len() == self.cells@.len() && in_order(self.pins@)
    }

    /// Whether a table has a pin with a cell.
    spec fn has(&self, p: PinModel, cell: Option<usize>) -> bool {
        exists|j: int| 0 <= j < self.pins@.len() && (#[trigger] self.pins@[j])@ == p && self.cells@[j] == cell
    }

    /// Whether a table has a pin more, with a cell.
    spec fn grows(&self, old: PinTable, p: PinModel, cell: Option<usize>) -> bool {
        &&& forall|q: PinModel| #[trigger] is_pin_of(self.pins@, q) <==> is_pin_of(old.pins@, q) || q == p
        &&& forall|i: int| 0 <= i < self.pins@.len() ==> old.has((#[trigger] self.pins@[i])@, self.cells@[i]) || (self.pins@[i]@ == p && self.cells@[i] == cell)
    }

    fn enter(&mut self, p: ClkPin, cell: Option<usize>)
        requires
            old(self).wf(),
        ensures
            final(self).wf(),
            final(self).grows(*old(self), p@, cell),
    {
        let at: usize = place_of(&self.pins, &p);
        if at < self.pins.len() && !is_pin_less(&p, &self.pins[at]) {
            proof {
                lemma_pin_order(self.pins@[at as int]@, p@);
                assert(is_pin_of(self.pins@, p@));
                assert forall|i: int| 0 <= i < self.pins@.len() implies old(self).has((#[trigger] self.pins@[i])@, self.cells@[i]) by {
                    assert(old(self).pins@[i]@ == self.pins@[i]@);
                }
            }
            return;
        }
        let ghost (v, w) = (self.pins@, self.cells@);
        let ghost pm = p@;
        self.pins.insert(at, p);
        self.cells.insert(at, cell);
        proof {
            let n = self.pins@;
            assert(n =~= v.insert(at as int, p));
            assert forall|i: int, j: int| 0 <= i < j < n.len() implies pin_less((#[trigger] n[i])@, (#[trigger] n[j])@) by {
                if j < at {
                    assert(n[i] == v[i] && n[j] == v[j]);
                } else if j == at {
                    assert(n[i] == v[i]);
                } else if i > at {
                    assert(n[i] == v[i - 1] && n[j] == v[j - 1]);
                } else if i == at {
                    assert(n[j] == v[j - 1]);
                    lemma_pin_order(v[j - 1]@, pm);
                    if v[j - 1]@ == pm {
                        assert(is_pin_of(v, pm));
                        assert(pin_less(pm, v[at as int]@));
                    }
                } else {
                    assert(n[i] == v[i] && n[j] == v[j - 1]);
                }
            }
            assert forall|q: PinModel| #[trigger] is_pin_of(n, q) <==> is_pin_of(v, q) || q == pm by {
                if is_pin_of(n, q) {
                    let i = choose|i: int| 0 <= i < n.len() && (#[trigger] n[i])@ == q;
                    if i < at {
                        assert(v[i]@ == q);
                    } else if i > at {
                        assert(v[i - 1]@ == q);
                    }
                }
                if is_pin_of(v, q) {
                    let i = choose|i: int| 0 <= i < v.len() && (#[trigger] v[i])@ == q;
                    if i < at {
                        assert(n[i]@ == q);
                    } else {
                        assert(n[i + 1]@ == q);
                    }
                }
                if q == pm {
                    assert(n[at as int]@ == q);
                }
            }
            assert forall|i: int| 0 <= i < n.len() implies old(self).has((#[trigger] n[i])@, self.cells@[i]) || (n[i]@ == pm && self.cells@[i] == cell) by {
                if i < at {
                    assert(old(self).pins@[i]@ == n[i]@ && old(self).cells@[i] == self.cells@[i]);
                } else if i > at {
                    assert(old(self).pins@[i - 1]@ == n[i]@ && old(self).cells@[i - 1] == self.cells@[i]);
                }
            }
        }
    }
}

// ---- what the facts say ----

/// Where the first slash stands, from the `k`-th character on.
pub open spec fn slash_from(s: Seq<char>, k: int) -> Option<int>
    decreases s.len() - k,
{
    if k >= s.len() {
        None
    } else if s[k] == '/' {
        Some(k)
    } else {
        slash_from(s, k + 1)
    }
}

/// What stands before and after the first slash.
pub open spec fn split_path(s: Seq<char>) -> Option<(Seq<char>, Seq<char>)> {
    match slash_from(s, 0) {
        Some(k) => Some((s.subrange(0, k), s.subrange(k + 1, s.len() as int))),
        None => None,
    }
}

/// What stands before and after the first slash of a path.
pub fn split_term<'a>(path: &'a str) -> (r: Option<(&'a str, &'a str)>)
    ensures
        match r {
            Some((inst, term)) => split_path(path@) == Some((inst@, term@)),
            None => split_path(path@) is None,
        },
{
    let n: usize = path.unicode_len();
    let mut k: usize = 0;
    while k < n
        invariant
            n == path@.len(),
            k <= n,
            slash_from(path@, k as int) == slash_from(path@, 0),
        decreases n - k,
    {
        if path.get_char(k) == '/' {
            return Some((path.substring_char(0, k), path.substring_char(k + 1, n)));
        }
        k += 1;
    }
    None
}

/// Whether a net is a supply, which has no pins here.
pub open spec fn is_supply(n: NetFacts) -> bool {
    n.sig_type@ == "POWER"@ || n.sig_type@ == "GROUND"@
}

/// Whether a port of a direction drives its net; none for a direction that is not followed.
pub open spec fn port_drives(io: Seq<char>) -> Option<bool> {
    if io == "INPUT"@ {
        Some(true)
    } else if io == "OUTPUT"@ {
        Some(false)
    } else {
        None
    }
}

/// Whether an instance's terminal of a direction drives its net.
pub open spec fn term_drives(io: Seq<char>) -> Option<bool> {
    if io == "OUTPUT"@ {
        Some(true)
    } else if io == "INPUT"@ {
        Some(false)
    } else {
        None
    }
}

/// A pin on a net: whether it drives, and its instance's cell.
#[verifier::ext_equal]
pub struct EntryModel {
    pub pin: PinModel,
    pub drives: bool,
    pub cell: Option<usize>,
}

pub open spec fn port_entry(p: PortOnNet) -> EntryModel {
    EntryModel { pin: port_pin(p.name@), drives: port_drives(p.io@) == Some(true), cell: None }
}

pub open spec fn term_entry(t: TermOnNet) -> EntryModel {
    let (inst, term) = split_path(t.path@)->0;
    EntryModel { pin: term_pin(inst, term), drives: term_drives(t.io@) == Some(true), cell: t.cell }
}

/// The pins of the first `n` terminals; one without a slash is passed over.
pub open spec fn term_entries(v: Seq<TermOnNet>, n: int) -> Seq<EntryModel>
    decreases n,
{
    if n <= 0 {
        Seq::empty()
    } else if split_path(v[n - 1].path@) is Some {
        term_entries(v, n - 1).push(term_entry(v[n - 1]))
    } else {
        term_entries(v, n - 1)
    }
}

/// The pins of a net: its ports, and then its terminals.
pub open spec fn net_entries(n: NetFacts) -> Seq<EntryModel> {
    n.ports@.map_values(|p: PortOnNet| port_entry(p)) + term_entries(n.terms@, n.terms@.len() as int)
}

/// The number of drivers among the first `n` pins.
pub open spec fn drivers_in(v: Seq<EntryModel>, n: int) -> int
    decreases n,
{
    if n <= 0 { 0 } else { drivers_in(v, n - 1) + (if v[n - 1].drives { 1int } else { 0int }) }
}

/// Whether the first `n` ports have directions that are followed.
pub open spec fn ports_ok(v: Seq<PortOnNet>, n: int) -> bool {
    forall|k: int| 0 <= k < n ==> port_drives((#[trigger] v[k]).io@) is Some
}

/// Whether a terminal has a direction that is followed, or no slash.
pub open spec fn term_ok(t: TermOnNet) -> bool {
    split_path(t.path@) is None || term_drives(t.io@) is Some
}

pub open spec fn terms_ok(v: Seq<TermOnNet>, n: int) -> bool {
    forall|k: int| 0 <= k < n ==> term_ok(#[trigger] v[k])
}

/// Whether a net can be taken into the netlist.
pub open spec fn is_net_ok(n: NetFacts) -> bool {
    &&& ports_ok(n.ports@, n.ports@.len() as int)
    &&& terms_ok(n.terms@, n.terms@.len() as int)
    &&& drivers_in(net_entries(n), net_entries(n).len() as int) < DRIVER_LIMIT
}

/// Why a netlist is refused.
#[derive(Debug)]
pub enum ClkFactsError {
    PortDirection { net: String, io: String },
    TermDirection { path: String, io: String },
    TooManyDrivers { net: String, drivers: usize },
}

/// Whether an error says what is wrong with a net: the first port of another direction, then the first such
/// terminal, then the number of drivers.
pub open spec fn is_trouble_of(e: ClkFactsError, n: NetFacts) -> bool {
    match e {
        ClkFactsError::PortDirection { net, io } => net@ == n.name@ && exists|k: int| {
            &&& 0 <= k < n.ports@.len()
            &&& port_drives((#[trigger] n.ports@[k]).io@) is None
            &&& ports_ok(n.ports@, k)
            &&& io@ == n.ports@[k].io@
        },
        ClkFactsError::TermDirection { path, io } => ports_ok(n.ports@, n.ports@.len() as int) && exists|k: int| {
            &&& 0 <= k < n.terms@.len()
            &&& !term_ok(#[trigger] n.terms@[k])
            &&& terms_ok(n.terms@, k)
            &&& path@ == n.terms@[k].path@
            &&& io@ == n.terms@[k].io@
        },
        ClkFactsError::TooManyDrivers { net, drivers } => {
            &&& ports_ok(n.ports@, n.ports@.len() as int)
            &&& terms_ok(n.terms@, n.terms@.len() as int)
            &&& net@ == n.name@
            &&& drivers == drivers_in(net_entries(n), net_entries(n).len() as int)
            &&& drivers >= DRIVER_LIMIT
        },
    }
}

/// Whether a net is the first that is refused, with an error.
pub open spec fn is_first_refused(nets: Seq<NetFacts>, k: int, e: ClkFactsError) -> bool {
    &&& 0 <= k < nets.len()
    &&& !is_supply(nets[k])
    &&& is_trouble_of(e, nets[k])
    &&& forall|j: int| 0 <= j < k ==> is_supply(#[trigger] nets[j]) || is_net_ok(nets[j])
}

struct Entry {
    pin: ClkPin,
    drives: bool,
    cell: Option<usize>,
}

spec fn entry_models(v: Seq<Entry>) -> Seq<EntryModel> {
    v.map_values(|e: Entry| EntryModel { pin: e.pin@, drives: e.drives, cell: e.cell })
}

fn direction_of(io: &str, driving: &str, loading: &str) -> (r: Option<bool>)
    ensures
        r == (if io@ == driving@ { Some(true) } else if io@ == loading@ { Some(false) } else { None }),
{
    if same_text(io, driving) {
        Some(true)
    } else if same_text(io, loading) {
        Some(false)
    } else {
        None
    }
}

#[verifier::rlimit(40)]
fn read_net(n: &NetFacts) -> (r: Result<Vec<Entry>, ClkFactsError>)
    ensures
        match r {
            Ok(row) => is_net_ok(*n) && entry_models(row@) == net_entries(*n),
            Err(e) => is_trouble_of(e, *n),
        },
{
    let ghost all = net_entries(*n);
    let mut row: Vec<Entry> = Vec::new();
    let mut drivers: usize = 0;
    let mut k: usize = 0;
    let ghost ports = n.ports@.map_values(|p: PortOnNet| port_entry(p));
    assert(entry_models(row@) =~= ports.take(0));
    while k < n.ports.len()
        invariant
            k <= n.ports@.len(),
            ports == n.ports@.map_values(|p: PortOnNet| port_entry(p)),
            ports_ok(n.ports@, k as int),
            row@.len() == k,
            drivers <= k,
            entry_models(row@) == ports.take(k as int),
            drivers == drivers_in(entry_models(row@), row@.len() as int),
        decreases n.ports@.len() - k,
    {
        let p = &n.ports[k];
        match direction_of(p.io.as_str(), "INPUT", "OUTPUT") {
            Some(drives) => {
                let ghost before = entry_models(row@);
                row.push(Entry { pin: ClkPin { is_term: false, owner: String::from_str(p.name.as_str()), term: String::new() }, drives, cell: None });
                if drives {
                    drivers += 1;
                }
                proof {
                    assert(row@[k as int].pin@ =~= port_pin(p.name@));
                    assert(entry_models(row@) =~= ports.take(k + 1));
                    lemma_drivers_prefix(before, entry_models(row@), k as int);
                }
            },
            None => {
                assert(port_drives(n.ports@[k as int].io@) is None);
                return Err(ClkFactsError::PortDirection { net: String::from_str(n.name.as_str()), io: String::from_str(p.io.as_str()) });
            },
        }
        k += 1;
    }
    assert(ports.take(k as int) =~= ports);
    let mut j: usize = 0;
    let total: usize = n.ports.len();
    assert(entry_models(row@) =~= ports + term_entries(n.terms@, 0));
    while j < n.terms.len()
        invariant
            j <= n.terms@.len(),
            total == n.ports@.len(),
            ports == n.ports@.map_values(|p: PortOnNet| port_entry(p)),
            ports_ok(n.ports@, n.ports@.len() as int),
            terms_ok(n.terms@, j as int),
            drivers <= row@.len(),
            entry_models(row@) == ports + term_entries(n.terms@, j as int),
            drivers == drivers_in(entry_models(row@), row@.len() as int),
        decreases n.terms@.len() - j,
    {
        let t = &n.terms[j];
        match split_term(t.path.as_str()) {
            Some((inst, term)) => match direction_of(t.io.as_str(), "OUTPUT", "INPUT") {
                Some(drives) => {
                    let ghost before = entry_models(row@);
                    let at: usize = row.len();
                    row.push(Entry { pin: ClkPin { is_term: true, owner: String::from_str(inst), term: String::from_str(term) }, drives, cell: t.cell });
                    let now: usize = row.len();
                    assert(now == at + 1);
                    if drives {
                        drivers += 1;
                    }
                    proof {
                        assert(entry_models(row@) =~= before.push(term_entry(n.terms@[j as int])));
                        assert(entry_models(row@) =~= ports + term_entries(n.terms@, j + 1));
                        lemma_drivers_prefix(before, entry_models(row@), at as int);
                    }
                },
                None => {
                    assert(!term_ok(n.terms@[j as int]));
                    return Err(ClkFactsError::TermDirection { path: String::from_str(t.path.as_str()), io: String::from_str(t.io.as_str()) });
                },
            },
            None => {
                assert(entry_models(row@) =~= ports + term_entries(n.terms@, j + 1));
            },
        }
        j += 1;
    }
    assert(entry_models(row@) =~= all);
    if drivers >= DRIVER_LIMIT {
        return Err(ClkFactsError::TooManyDrivers { net: String::from_str(n.name.as_str()), drivers });
    }
    Ok(row)
}

proof fn lemma_drivers_prefix(a: Seq<EntryModel>, b: Seq<EntryModel>, n: int)
    requires
        0 <= n <= a.len(),
        n <= b.len(),
        forall|i: int| 0 <= i < n ==> a[i] == b[i],
    ensures
        drivers_in(a, n) == drivers_in(b, n),
    decreases n,
{
    if n > 0 {
        lemma_drivers_prefix(a, b, n - 1);
    }
}

// ---- the netlist ----

/// Whether a net counts and has a terminal at a place.
pub open spec fn has_term(f: ClkFacts, n: int, j: int) -> bool {
    0 <= n < f.nets@.len() && !is_supply(f.nets@[n]) && 0 <= j < f.nets@[n].terms@.len() && split_path(f.nets@[n].terms@[j].path@) is Some
}

/// The instance of a terminal.
pub open spec fn inst_of(t: TermOnNet) -> Seq<char> {
    let (inst, term) = split_path(t.path@)->0;
    inst
}

/// Whether an instance is said to be of a cell, or of none.
pub open spec fn has_cell(f: ClkFacts, inst: Seq<char>, cell: Option<usize>) -> bool {
    exists|n: int, j: int| #[trigger] has_term(f, n, j) && inst_of(f.nets@[n].terms@[j]) == inst && f.nets@[n].terms@[j].cell == cell
}

/// Whether an arc of a cell counts: it is combinational and ends at a terminal that is there.
pub open spec fn counts(c: CellFacts, a: int) -> bool {
    &&& 0 <= a < c.arcs@.len()
    &&& c.arcs@[a].is_combinational
    &&& exists|t: int| 0 <= t < c.terms@.len() && (#[trigger] c.terms@[t])@ == c.arcs@[a].to@
}

/// Whether an arc of a cell that counts ends at a terminal.
pub open spec fn leads_to(c: CellFacts, term: Seq<char>) -> bool {
    exists|a: int| #[trigger] counts(c, a) && c.arcs@[a].to@ == term
}

/// Whether a pin is on a net that counts.
pub open spec fn is_on_net(f: ClkFacts, p: PinModel) -> bool {
    exists|n: int, k: int| 0 <= n < f.nets@.len() && !is_supply(f.nets@[n]) && 0 <= k < net_entries(f.nets@[n]).len() && (#[trigger] net_entries(f.nets@[n])[k]).pin == p
}

/// Whether a pin is a clock's source.
pub open spec fn is_clock_port(f: ClkFacts, p: PinModel) -> bool {
    exists|s: int| 0 <= s < f.sources@.len() && p == port_pin((#[trigger] f.sources@[s])@)
}

/// Whether an arc of a pin's instance ends at the pin.
pub open spec fn ends_arc(f: ClkFacts, p: PinModel) -> bool {
    p.is_term && exists|c: usize| #[trigger] has_cell(f, p.owner, Some(c)) && leads_to(f.cells@[c as int], p.term)
}

/// Whether a pin is in the netlist.
pub open spec fn is_named(f: ClkFacts, p: PinModel) -> bool {
    is_on_net(f, p) || is_clock_port(f, p) || ends_arc(f, p)
}

/// Whether every cell that is named is there.
pub open spec fn cells_there(f: ClkFacts) -> bool {
    forall|n: int, j: int| 0 <= n < f.nets@.len() && 0 <= j < f.nets@[n].terms@.len() ==> ((#[trigger] f.nets@[n].terms@[j]).cell matches Some(c) ==> c < f.cells@.len())
}

/// The pins that the first `n` arcs from a terminal of an instance lead to.
pub open spec fn arcs_upto(c: CellFacts, inst: Seq<char>, from: Seq<char>, n: int) -> Seq<PinModel>
    decreases n,
{
    if n <= 0 {
        Seq::empty()
    } else if counts(c, n - 1) && c.arcs@[n - 1].from@ == from {
        arcs_upto(c, inst, from, n - 1).push(term_pin(inst, c.arcs@[n - 1].to@))
    } else {
        arcs_upto(c, inst, from, n - 1)
    }
}

/// The pins that the arcs from a pin lead to.
pub open spec fn targets(f: ClkFacts, p: PinModel, cell: Option<usize>) -> Seq<PinModel> {
    match cell {
        Some(c) => if p.is_term { arcs_upto(f.cells@[c as int], p.owner, p.term, f.cells@[c as int].arcs@.len() as int) } else { Seq::empty() },
        None => Seq::empty(),
    }
}

/// The nets among the first `n` that count.
pub open spec fn counted_nets(nets: Seq<NetFacts>, n: int) -> Seq<int>
    decreases n,
{
    if n <= 0 {
        Seq::empty()
    } else if is_supply(nets[n - 1]) {
        counted_nets(nets, n - 1)
    } else {
        counted_nets(nets, n - 1).push(n - 1)
    }
}

/// A netlist with the names of what is in it: its pins in their order, the cell of each, and its nets.
#[derive(Debug)]
pub struct ClkDesign {
    pub pins: Vec<ClkPin>,
    pub cells: Vec<Option<usize>>,
    pub net_names: Vec<String>,
    pub graph: ClkNetlist,
}

/// Whether a net's pins are those of a net of the facts, in order.
pub open spec fn is_row_of(pins: Seq<ClkPin>, row: Seq<(usize, bool)>, entries: Seq<EntryModel>) -> bool {
    &&& row.len() == entries.len()
    &&& forall|k: int| 0 <= k < row.len() ==> (#[trigger] row[k]).0 < pins.len() && pins[row[k].0 as int]@ == entries[k].pin && row[k].1 == entries[k].drives
}

/// Whether places are those of pins, in order.
pub open spec fn are_places_of(pins: Seq<ClkPin>, places: Seq<usize>, v: Seq<PinModel>) -> bool {
    &&& places.len() == v.len()
    &&& forall|k: int| 0 <= k < places.len() ==> (#[trigger] places[k]) < pins.len() && pins[places[k] as int]@ == v[k]
}

/// Whether a pin's cell is one that its instance is said to be of; a port has none.
pub open spec fn is_cell_of(f: ClkFacts, p: PinModel, cell: Option<usize>) -> bool {
    if p.is_term { has_cell(f, p.owner, cell) } else { cell is None }
}

/// Whether a netlist is that of the facts.
pub open spec fn is_netlist_of(f: ClkFacts, d: ClkDesign) -> bool {
    let kept = counted_nets(f.nets@, f.nets@.len() as int);
    let n = d.pins@.len();
    &&& in_order(d.pins@)
    &&& forall|p: PinModel| #[trigger] is_pin_of(d.pins@, p) <==> is_named(f, p)
    &&& d.cells@.len() == n && forall|i: int| 0 <= i < n ==> is_cell_of(f, (#[trigger] d.pins@[i])@, d.cells@[i])
    &&& d.net_names@.len() == kept.len() && forall|i: int| 0 <= i < kept.len() ==> (#[trigger] d.net_names@[i])@ == f.nets@[kept[i]].name@
    &&& d.graph.nets@.len() == kept.len() && forall|i: int| 0 <= i < kept.len() ==> is_row_of(d.pins@, (#[trigger] d.graph.nets@[i])@, net_entries(f.nets@[kept[i]]))
    &&& d.graph.arcs@.len() == n && forall|i: int| 0 <= i < n ==> are_places_of(d.pins@, (#[trigger] d.graph.arcs@[i])@, targets(f, d.pins@[i]@, d.cells@[i]))
    &&& d.graph.inferred@.len() == n && forall|i: int|
        0 <= i < n ==> #[trigger] d.graph.inferred@[i] == (d.cells@[i] matches Some(c) && f.cells@[c as int].may_infer)
    &&& ascending(d.graph.sources@)
    &&& forall|i: usize| #[trigger] d.graph.sources@.contains(i) <==> i < n && is_clock_port(f, d.pins@[i as int]@)
}

fn copy_pin(p: &ClkPin) -> (q: ClkPin)
    ensures
        q@ == p@,
{
    ClkPin { is_term: p.is_term, owner: String::from_str(p.owner.as_str()), term: String::from_str(p.term.as_str()) }
}

fn does_count(c: &CellFacts, a: usize) -> (r: bool)
    requires
        a < c.arcs@.len(),
    ensures
        r == counts(*c, a as int),
{
    if !c.arcs[a].is_combinational {
        return false;
    }
    let mut t: usize = 0;
    while t < c.terms.len()
        invariant
            a < c.arcs@.len(),
            c.arcs@[a as int].is_combinational,
            t <= c.terms@.len(),
            forall|i: int| 0 <= i < t ==> (#[trigger] c.terms@[i])@ != c.arcs@[a as int].to@,
        decreases c.terms@.len() - t,
    {
        if same_text(c.terms[t].as_str(), c.arcs[a].to.as_str()) {
            assert(c.terms@[t as int]@ == c.arcs@[a as int].to@);
            return true;
        }
        t += 1;
    }
    false
}

impl PinTable {
    /// Whether every pin of a table is in the netlist, with a cell of its own.
    spec fn sound(&self, f: ClkFacts) -> bool {
        forall|i: int| 0 <= i < self.pins@.len() ==> is_named(f, (#[trigger] self.pins@[i])@) && is_cell_of(f, self.pins@[i]@, self.cells@[i])
    }

    /// Whether a table has all pins of another.
    spec fn keeps(&self, old: PinTable) -> bool {
        forall|q: PinModel| is_pin_of(old.pins@, q) ==> #[trigger] is_pin_of(self.pins@, q)
    }

    /// Whether a table has what the arcs of an instance of a cell lead to.
    spec fn covers_arcs(&self, c: CellFacts, inst: Seq<char>) -> bool {
        forall|a: int| #[trigger] counts(c, a) ==> is_pin_of(self.pins@, term_pin(inst, c.arcs@[a].to@))
    }

    /// Whether a table has a pin and what the arcs of its instance lead to.
    spec fn covers(&self, f: ClkFacts, e: EntryModel) -> bool {
        &&& is_pin_of(self.pins@, e.pin)
        &&& e.pin.is_term && e.cell is Some ==> self.covers_arcs(f.cells@[e.cell->0 as int], e.pin.owner)
    }

    spec fn covers_row(&self, f: ClkFacts, v: Seq<EntryModel>, n: int) -> bool {
        forall|k: int| 0 <= k < n ==> self.covers(f, #[trigger] v[k])
    }

    proof fn lemma_sound(&self, old: PinTable, f: ClkFacts, p: PinModel, cell: Option<usize>)
        requires
            old.sound(f),
            self.grows(old, p, cell),
            is_named(f, p),
            is_cell_of(f, p, cell),
        ensures
            self.sound(f),
            self.keeps(old),
            is_pin_of(self.pins@, p),
    {
        assert forall|i: int| 0 <= i < self.pins@.len() implies is_named(f, (#[trigger] self.pins@[i])@) && is_cell_of(f, self.pins@[i]@, self.cells@[i]) by {
            if old.has(self.pins@[i]@, self.cells@[i]) {
                let j = choose|j: int| 0 <= j < old.pins@.len() && (#[trigger] old.pins@[j])@ == self.pins@[i]@ && old.cells@[j] == self.cells@[i];
                assert(is_named(f, old.pins@[j]@));
            }
        }
    }

    proof fn lemma_still_covers(&self, old: PinTable, f: ClkFacts, v: Seq<EntryModel>, n: int)
        requires
            self.keeps(old),
            old.covers_row(f, v, n),
        ensures
            self.covers_row(f, v, n),
    {
        assert forall|k: int| 0 <= k < n implies self.covers(f, #[trigger] v[k]) by {
            assert(old.covers(f, v[k]));
            assert(is_pin_of(old.pins@, v[k].pin));
            if v[k].pin.is_term && v[k].cell is Some {
                let c = f.cells@[v[k].cell->0 as int];
                assert forall|a: int| #[trigger] counts(c, a) implies is_pin_of(self.pins@, term_pin(v[k].pin.owner, c.arcs@[a].to@)) by {
                    assert(is_pin_of(old.pins@, term_pin(v[k].pin.owner, c.arcs@[a].to@)));
                }
            }
        }
    }

    fn enter_arcs(&mut self, f: &ClkFacts, inst: &str, c: usize)
        requires
            old(self).wf(),
            old(self).sound(*f),
            c < f.cells@.len(),
            has_cell(*f, inst@, Some(c)),
        ensures
            final(self).wf(),
            final(self).sound(*f),
            final(self).keeps(*old(self)),
            final(self).covers_arcs(f.cells@[c as int], inst@),
    {
        let cell = &f.cells[c];
        let mut a: usize = 0;
        while a < cell.arcs.len()
            invariant
                *cell == f.cells@[c as int],
                c < f.cells@.len(),
                has_cell(*f, inst@, Some(c)),
                self.wf(),
                self.sound(*f),
                self.keeps(*old(self)),
                a <= cell.arcs@.len(),
                forall|i: int| 0 <= i < a && #[trigger] counts(*cell, i) ==> is_pin_of(self.pins@, term_pin(inst@, cell.arcs@[i].to@)),
            decreases cell.arcs@.len() - a,
        {
            if does_count(cell, a) {
                let ghost before = *self;
                let p = ClkPin { is_term: true, owner: String::from_str(inst), term: String::from_str(cell.arcs[a].to.as_str()) };
                proof {
                    assert(p@ =~= term_pin(inst@, cell.arcs@[a as int].to@));
                    assert(counts(*cell, a as int) && cell.arcs@[a as int].to@ == p@.term);
                    assert(leads_to(f.cells@[c as int], p@.term));
                    assert(has_cell(*f, p@.owner, Some(c)));
                    assert(ends_arc(*f, p@));
                }
                let ghost pm = p@;
                self.enter(p, Some(c));
                proof {
                    self.lemma_sound(before, *f, pm, Some(c));
                    assert forall|i: int| 0 <= i < a + 1 && #[trigger] counts(*cell, i) implies is_pin_of(self.pins@, term_pin(inst@, cell.arcs@[i].to@)) by {
                        if i < a {
                            assert(is_pin_of(before.pins@, term_pin(inst@, cell.arcs@[i].to@)));
                        }
                    }
                    assert forall|q: PinModel| is_pin_of(old(self).pins@, q) implies #[trigger] is_pin_of(self.pins@, q) by {
                        assert(is_pin_of(before.pins@, q));
                    }
                }
            }
            a += 1;
        }
    }

    fn enter_row(&mut self, f: &ClkFacts, n: usize, row: &Vec<Entry>)
        requires
            old(self).wf(),
            old(self).sound(*f),
            cells_there(*f),
            n < f.nets@.len(),
            !is_supply(f.nets@[n as int]),
            entry_models(row@) == net_entries(f.nets@[n as int]),
        ensures
            final(self).wf(),
            final(self).sound(*f),
            final(self).keeps(*old(self)),
            final(self).covers_row(*f, entry_models(row@), row@.len() as int),
    {
        let ghost all = entry_models(row@);
        let mut k: usize = 0;
        while k < row.len()
            invariant
                cells_there(*f),
                n < f.nets@.len(),
                !is_supply(f.nets@[n as int]),
                all == entry_models(row@),
                all == net_entries(f.nets@[n as int]),
                self.wf(),
                self.sound(*f),
                self.keeps(*old(self)),
                k <= row@.len(),
                self.covers_row(*f, all, k as int),
            decreases row@.len() - k,
        {
            let e = &row[k];
            let ghost before = *self;
            let p = copy_pin(&e.pin);
            proof {
                assert(all[k as int] == EntryModel { pin: e.pin@, drives: e.drives, cell: e.cell });
                assert(net_entries(f.nets@[n as int])[k as int].pin == p@);
                lemma_entry(*f, n as int, k as int);
            }
            let ghost pm = p@;
            self.enter(p, e.cell);
            let ghost mid = *self;
            proof {
                self.lemma_sound(before, *f, pm, e.cell);
                self.lemma_still_covers(before, *f, all, k as int);
            }
            if e.pin.is_term {
                match e.cell {
                    Some(c) => {
                        self.enter_arcs(f, e.pin.owner.as_str(), c);
                        proof {
                            self.lemma_still_covers(mid, *f, all, k as int);
                            assert(is_pin_of(mid.pins@, pm));
                        }
                    },
                    None => {},
                }
            }
            proof {
                assert(is_pin_of(mid.pins@, pm));
                assert(is_pin_of(self.pins@, pm));
                assert(self.covers(*f, all[k as int]));
                assert forall|i: int| 0 <= i < k + 1 implies self.covers(*f, #[trigger] all[i]) by {}
                assert forall|q: PinModel| is_pin_of(old(self).pins@, q) implies #[trigger] is_pin_of(self.pins@, q) by {
                    assert(is_pin_of(before.pins@, q));
                    assert(is_pin_of(mid.pins@, q));
                }
            }
            k += 1;
        }
    }
}

/// A pin on a net that counts has a cell that its instance is said to be of.
proof fn lemma_entry(f: ClkFacts, n: int, k: int)
    requires
        0 <= n < f.nets@.len(),
        !is_supply(f.nets@[n]),
        cells_there(f),
        0 <= k < net_entries(f.nets@[n]).len(),
    ensures
        ({
            let e = net_entries(f.nets@[n])[k];
            &&& is_cell_of(f, e.pin, e.cell)
            &&& is_named(f, e.pin)
            &&& e.cell matches Some(c) ==> c < f.cells@.len()
        }),
{
    let net = f.nets@[n];
    let e = net_entries(net)[k];
    assert(is_on_net(f, e.pin));
    if k >= net.ports@.len() {
        lemma_term_entry(f, n, net.terms@.len() as int, k - net.ports@.len());
    }
}

proof fn lemma_term_entry(f: ClkFacts, n: int, m: int, k: int)
    requires
        0 <= n < f.nets@.len(),
        !is_supply(f.nets@[n]),
        cells_there(f),
        0 <= m <= f.nets@[n].terms@.len(),
        0 <= k < term_entries(f.nets@[n].terms@, m).len(),
    ensures
        ({
            let e = term_entries(f.nets@[n].terms@, m)[k];
            &&& e.pin.is_term
            &&& has_cell(f, e.pin.owner, e.cell)
            &&& e.cell matches Some(c) ==> c < f.cells@.len()
        }),
    decreases m,
{
    let v = f.nets@[n].terms@;
    let before = term_entries(v, m - 1);
    if k < before.len() {
        lemma_term_entry(f, n, m - 1, k);
    } else {
        assert(has_term(f, n, m - 1));
    }
}

fn place_row(pins: &Vec<ClkPin>, row: &Vec<Entry>) -> (r: Vec<(usize, bool)>)
    requires
        in_order(pins@),
        forall|k: int| 0 <= k < row@.len() ==> is_pin_of(pins@, (#[trigger] row@[k]).pin@),
        drivers_in(entry_models(row@), row@.len() as int) < DRIVER_LIMIT,
    ensures
        is_row_of(pins@, r@, entry_models(row@)),
        !crowded(r@),
{
    let mut r: Vec<(usize, bool)> = Vec::new();
    let mut k: usize = 0;
    while k < row.len()
        invariant
            in_order(pins@),
            forall|k: int| 0 <= k < row@.len() ==> is_pin_of(pins@, (#[trigger] row@[k]).pin@),
            k <= row@.len(),
            r@.len() == k,
            forall|i: int| 0 <= i < k ==> (#[trigger] r@[i]).0 < pins@.len() && pins@[r@[i].0 as int]@ == row@[i].pin@ && r@[i].1 == row@[i].drives,
        decreases row@.len() - k,
    {
        assert(is_pin_of(pins@, row@[k as int].pin@));
        let at: usize = place_of(pins, &row[k].pin);
        r.push((at, row[k].drives));
        k += 1;
    }
    proof {
        lemma_driver_counts(r@, entry_models(row@), row@.len() as int);
    }
    r
}

proof fn lemma_driver_counts(r: Seq<(usize, bool)>, v: Seq<EntryModel>, n: int)
    requires
        0 <= n <= r.len(),
        r.len() == v.len(),
        forall|i: int| 0 <= i < r.len() ==> (#[trigger] r[i]).1 == v[i].drives,
    ensures
        driver_count(r, n) == drivers_in(v, n),
    decreases n,
{
    if n > 0 {
        lemma_driver_counts(r, v, n - 1);
    }
}

fn place_arcs(f: &ClkFacts, pins: &Vec<ClkPin>, p: &ClkPin, cell: Option<usize>) -> (r: Vec<usize>)
    requires
        in_order(pins@),
        cell matches Some(c) ==> c < f.cells@.len(),
        is_cell_of(*f, p@, cell),
        forall|q: PinModel| is_named(*f, q) ==> #[trigger] is_pin_of(pins@, q),
    ensures
        are_places_of(pins@, r@, targets(*f, p@, cell)),
{
    let mut r: Vec<usize> = Vec::new();
    if !p.is_term {
        return r;
    }
    match cell {
        None => {},
        Some(c) => {
            let facts = &f.cells[c];
            let ghost (inst, from) = (p@.owner, p@.term);
            let mut a: usize = 0;
            while a < facts.arcs.len()
                invariant
                    in_order(pins@),
                    p.is_term,
                    inst == p@.owner,
                    from == p@.term,
                    c < f.cells@.len(),
                    *facts == f.cells@[c as int],
                    has_cell(*f, inst, Some(c)),
                    forall|q: PinModel| is_named(*f, q) ==> #[trigger] is_pin_of(pins@, q),
                    a <= facts.arcs@.len(),
                    are_places_of(pins@, r@, arcs_upto(*facts, inst, from, a as int)),
                decreases facts.arcs@.len() - a,
            {
                if same_text(facts.arcs[a].from.as_str(), p.term.as_str()) && does_count(facts, a) {
                    let q = ClkPin { is_term: true, owner: String::from_str(p.owner.as_str()), term: String::from_str(facts.arcs[a].to.as_str()) };
                    proof {
                        assert(q@ =~= term_pin(inst, facts.arcs@[a as int].to@));
                        assert(counts(*facts, a as int) && facts.arcs@[a as int].to@ == q@.term);
                        assert(leads_to(f.cells@[c as int], q@.term));
                        assert(has_cell(*f, q@.owner, Some(c)));
                        assert(ends_arc(*f, q@));
                        assert(is_pin_of(pins@, q@));
                    }
                    let ghost before = r@;
                    let at: usize = place_of(pins, &q);
                    r.push(at);
                    proof {
                        let now = arcs_upto(*facts, inst, from, a + 1);
                        assert forall|k: int| 0 <= k < r@.len() implies (#[trigger] r@[k]) < pins@.len() && pins@[r@[k] as int]@ == now[k] by {
                            if k < before.len() {
                                assert(r@[k] == before[k]);
                            }
                        }
                    }
                }
                a += 1;
            }
        },
    }
    r
}

fn is_source_name(f: &ClkFacts, name: &str) -> (r: bool)
    ensures
        r == is_clock_port(*f, port_pin(name@)),
{
    let mut s: usize = 0;
    while s < f.sources.len()
        invariant
            s <= f.sources@.len(),
            forall|i: int| 0 <= i < s ==> (#[trigger] f.sources@[i])@ != name@,
        decreases f.sources@.len() - s,
    {
        if same_text(f.sources[s].as_str(), name) {
            assert(port_pin(name@) == port_pin(f.sources@[s as int]@));
            return true;
        }
        s += 1;
    }
    assert forall|i: int| 0 <= i < f.sources@.len() implies port_pin(name@) != port_pin((#[trigger] f.sources@[i])@) by {
        assert(port_pin(name@).owner != port_pin(f.sources@[i]@).owner);
    }
    false
}

/// The places of the sources among pins, of which every port has an empty terminal.
fn place_sources(f: &ClkFacts, pins: &Vec<ClkPin>) -> (r: Vec<usize>)
    requires
        forall|i: int| 0 <= i < pins@.len() ==> is_named(*f, (#[trigger] pins@[i])@),
    ensures
        ascending(r@),
        forall|i: usize| #[trigger] r@.contains(i) <==> i < pins@.len() && is_clock_port(*f, pins@[i as int]@),
{
    let mut r: Vec<usize> = Vec::new();
    let mut k: usize = 0;
    while k < pins.len()
        invariant
            forall|i: int| 0 <= i < pins@.len() ==> is_named(*f, (#[trigger] pins@[i])@),
            k <= pins@.len(),
            forall|i: int| 0 <= i < r@.len() ==> (#[trigger] r@[i]) < k && is_clock_port(*f, pins@[r@[i] as int]@),
            forall|i: int, j: int| 0 <= i < j < r@.len() ==> #[trigger] r@[i] < #[trigger] r@[j],
            forall|i: int| 0 <= i < k && is_clock_port(*f, (#[trigger] pins@[i])@) ==> r@.contains(i as usize),
        decreases pins@.len() - k,
    {
        let p = &pins[k];
        let found = !p.is_term && is_source_name(f, p.owner.as_str());
        proof {
            assert(is_named(*f, pins@[k as int]@));
            if !p.is_term {
                lemma_port(*f, p@);
            } else {
                assert(!is_clock_port(*f, p@));
            }
        }
        assert(found == is_clock_port(*f, p@));
        let ghost before = r@;
        if found {
            r.push(k);
        }
        proof {
            assert forall|i: int| 0 <= i < k + 1 && is_clock_port(*f, (#[trigger] pins@[i])@) implies r@.contains(i as usize) by {
                if i < k {
                    assert(before.contains(i as usize));
                    let j = choose|j: int| 0 <= j < before.len() && before[j] == i as usize;
                    assert(r@[j] == i as usize);
                } else {
                    assert(r@[before.len() as int] == i as usize);
                }
            }
        }
        k += 1;
    }
    proof {
        reveal(ascending);
        assert forall|i: usize| #[trigger] r@.contains(i) implies i < pins@.len() && is_clock_port(*f, pins@[i as int]@) by {
            let j = choose|j: int| 0 <= j < r@.len() && r@[j] == i;
            assert(r@[j] < pins@.len());
        }
        assert forall|i: usize| i < pins@.len() && is_clock_port(*f, pins@[i as int]@) implies #[trigger] r@.contains(i) by {
            assert(is_clock_port(*f, pins@[i as int]@));
        }
    }
    r
}

/// A port of the netlist has no terminal.
proof fn lemma_port(f: ClkFacts, p: PinModel)
    requires
        is_named(f, p),
        !p.is_term,
    ensures
        p == port_pin(p.owner),
{
    if is_on_net(f, p) {
        let (n, k) = choose|n: int, k: int|
            0 <= n < f.nets@.len() && !is_supply(f.nets@[n]) && 0 <= k < net_entries(f.nets@[n]).len() && (#[trigger] net_entries(f.nets@[n])[k]).pin == p;
        let net = f.nets@[n];
        if k >= net.ports@.len() {
            lemma_all_terms(net.terms@, net.terms@.len() as int, k - net.ports@.len());
        }
    }
}

proof fn lemma_all_terms(v: Seq<TermOnNet>, m: int, k: int)
    requires
        0 <= m <= v.len(),
        0 <= k < term_entries(v, m).len(),
    ensures
        term_entries(v, m)[k].pin.is_term,
    decreases m,
{
    if k < term_entries(v, m - 1).len() {
        lemma_all_terms(v, m - 1, k);
    }
}

proof fn lemma_counted(nets: Seq<NetFacts>, m: int)
    requires
        0 <= m <= nets.len(),
    ensures
        forall|i: int| 0 <= i < counted_nets(nets, m).len() ==> 0 <= (#[trigger] counted_nets(nets, m)[i]) < m && !is_supply(nets[counted_nets(nets, m)[i]]),
        forall|n: int| 0 <= n < m && !is_supply(#[trigger] nets[n]) ==> counted_nets(nets, m).contains(n),
    decreases m,
{
    if m > 0 {
        lemma_counted(nets, m - 1);
        let (now, before) = (counted_nets(nets, m), counted_nets(nets, m - 1));
        assert forall|i: int| 0 <= i < now.len() implies 0 <= (#[trigger] now[i]) < m && !is_supply(nets[now[i]]) by {
            if i < before.len() {
                assert(now[i] == before[i]);
            }
        }
        assert forall|n: int| 0 <= n < m && !is_supply(#[trigger] nets[n]) implies now.contains(n) by {
            if n < m - 1 {
                assert(before.contains(n));
                let i = choose|i: int| 0 <= i < before.len() && before[i] == n;
                assert(now[i] == n);
            } else {
                assert(now[before.len() as int] == n);
            }
        }
    }
}

proof fn lemma_term_at(v: Seq<TermOnNet>, m: int, j: int) -> (k: int)
    requires
        0 <= j < m <= v.len(),
        split_path(v[j].path@) is Some,
    ensures
        0 <= k < term_entries(v, m).len(),
        term_entries(v, m)[k] == term_entry(v[j]),
    decreases m,
{
    if j == m - 1 {
        term_entries(v, m - 1).len() as int
    } else {
        let k = lemma_term_at(v, m - 1, j);
        k
    }
}

proof fn lemma_complete(f: ClkFacts, t: PinTable, q: PinModel)
    requires
        forall|i: int|
            #![trigger counted_nets(f.nets@, f.nets@.len() as int)[i]]
            0 <= i < counted_nets(f.nets@, f.nets@.len() as int).len() ==> ({
                let all = net_entries(f.nets@[counted_nets(f.nets@, f.nets@.len() as int)[i]]);
                t.covers_row(f, all, all.len() as int)
            }),
        forall|s: int| 0 <= s < f.sources@.len() ==> is_pin_of(t.pins@, port_pin((#[trigger] f.sources@[s])@)),
        is_named(f, q),
    ensures
        is_pin_of(t.pins@, q),
{
    let kept = counted_nets(f.nets@, f.nets@.len() as int);
    lemma_counted(f.nets@, f.nets@.len() as int);
    if is_on_net(f, q) {
        let (n, k) = choose|n: int, k: int|
            0 <= n < f.nets@.len() && !is_supply(f.nets@[n]) && 0 <= k < net_entries(f.nets@[n]).len() && (#[trigger] net_entries(f.nets@[n])[k]).pin == q;
        assert(kept.contains(n));
        let i = choose|i: int| 0 <= i < kept.len() && kept[i] == n;
        let all = net_entries(f.nets@[kept[i]]);
        assert(t.covers_row(f, all, all.len() as int));
        assert(t.covers(f, all[k]));
    } else if is_clock_port(f, q) {
        let s = choose|s: int| 0 <= s < f.sources@.len() && q == port_pin((#[trigger] f.sources@[s])@);
        assert(is_pin_of(t.pins@, port_pin(f.sources@[s]@)));
    } else {
        let c = choose|c: usize| #[trigger] has_cell(f, q.owner, Some(c)) && leads_to(f.cells@[c as int], q.term);
        let (n, j) = choose|n: int, j: int| #[trigger] has_term(f, n, j) && inst_of(f.nets@[n].terms@[j]) == q.owner && f.nets@[n].terms@[j].cell == Some(c);
        let a = choose|a: int| #[trigger] counts(f.cells@[c as int], a) && f.cells@[c as int].arcs@[a].to@ == q.term;
        assert(kept.contains(n));
        let i = choose|i: int| 0 <= i < kept.len() && kept[i] == n;
        let all = net_entries(f.nets@[kept[i]]);
        assert(t.covers_row(f, all, all.len() as int));
        let k = lemma_term_at(f.nets@[n].terms@, f.nets@[n].terms@.len() as int, j) + f.nets@[n].ports@.len();
        assert(all[k] == term_entry(f.nets@[n].terms@[j]));
        assert(t.covers(f, all[k]));
        let e = all[k];
        assert(0 <= k < all.len());
        assert(e.pin.is_term && e.pin.owner == q.owner);
        assert(e.cell == Some(c));
        assert(t.covers_arcs(f.cells@[c as int], e.pin.owner));
        assert(counts(f.cells@[c as int], a));
        assert(term_pin(all[k].pin.owner, f.cells@[c as int].arcs@[a].to@) =~= q);
        assert(is_pin_of(t.pins@, term_pin(all[k].pin.owner, f.cells@[c as int].arcs@[a].to@)));
    }
}

/// The netlist that a clock network is searched in. Refused at the first net with a pin of a direction that is not
/// followed, or with too many drivers.
#[verifier::rlimit(60)]
pub fn build_netlist(f: &ClkFacts) -> (r: Result<ClkDesign, ClkFactsError>)
    requires
        cells_there(*f),
    ensures
        match r {
            Ok(d) => {
                &&& forall|k: int| 0 <= k < f.nets@.len() ==> is_supply(#[trigger] f.nets@[k]) || is_net_ok(f.nets@[k])
                &&& is_netlist_of(*f, d)
                &&& d.graph.wf()
                &&& forall|i: int| 0 <= i < d.graph.nets@.len() ==> !crowded((#[trigger] d.graph.nets@[i])@)
            },
            Err(e) => exists|k: int| #[trigger] is_first_refused(f.nets@, k, e),
        },
{
    let mut t = PinTable { pins: Vec::new(), cells: Vec::new() };
    let mut rows: Vec<Vec<Entry>> = Vec::new();
    let mut net_names: Vec<String> = Vec::new();
    let mut n: usize = 0;
    while n < f.nets.len()
        invariant
            cells_there(*f),
            n <= f.nets@.len(),
            t.wf(),
            t.sound(*f),
            forall|k: int| 0 <= k < n ==> is_supply(#[trigger] f.nets@[k]) || is_net_ok(f.nets@[k]),
            rows@.len() == counted_nets(f.nets@, n as int).len(),
            net_names@.len() == rows@.len(),
            forall|i: int| 0 <= i < rows@.len() ==> (#[trigger] net_names@[i])@ == f.nets@[counted_nets(f.nets@, n as int)[i]].name@,
            forall|i: int|
                0 <= i < rows@.len() ==> entry_models((#[trigger] rows@[i])@) == net_entries(f.nets@[counted_nets(f.nets@, n as int)[i]]) && t.covers_row(
                    *f,
                    entry_models(rows@[i]@),
                    rows@[i]@.len() as int,
                ) && drivers_in(entry_models(rows@[i]@), rows@[i]@.len() as int) < DRIVER_LIMIT,
        decreases f.nets@.len() - n,
    {
        let net = &f.nets[n];
        let ghost kept = counted_nets(f.nets@, n as int);
        if !same_text(net.sig_type.as_str(), "POWER") && !same_text(net.sig_type.as_str(), "GROUND") {
            match read_net(net) {
                Ok(row) => {
                    let ghost before = t;
                    let ghost rows0 = rows@;
                    let ghost names0 = net_names@;
                    t.enter_row(f, n, &row);
                    let ghost all = entry_models(row@);
                    proof {
                        assert forall|i: int| 0 <= i < rows0.len() implies t.covers_row(*f, entry_models((#[trigger] rows0[i])@), rows0[i]@.len() as int) by {
                            t.lemma_still_covers(before, *f, entry_models(rows0[i]@), rows0[i]@.len() as int);
                        }
                    }
                    rows.push(row);
                    net_names.push(String::from_str(net.name.as_str()));
                    proof {
                        let now = counted_nets(f.nets@, n + 1);
                        assert(now == kept.push(n as int));
                        assert(row@.len() == all.len());
                        assert forall|i: int| 0 <= i < rows@.len() implies (#[trigger] net_names@[i])@ == f.nets@[now[i]].name@ by {
                            if i < rows0.len() {
                                assert(net_names@[i] == names0[i]);
                                assert(now[i] == kept[i]);
                            }
                        }
                        assert forall|i: int| 0 <= i < rows@.len() implies entry_models((#[trigger] rows@[i])@) == net_entries(f.nets@[now[i]]) && t.covers_row(
                            *f,
                            entry_models(rows@[i]@),
                            rows@[i]@.len() as int,
                        ) && drivers_in(entry_models(rows@[i]@), rows@[i]@.len() as int) < DRIVER_LIMIT by {
                            if i < rows0.len() {
                                assert(rows@[i] == rows0[i]);
                                assert(now[i] == kept[i]);
                            }
                        }
                    }
                },
                Err(e) => {
                    assert(is_first_refused(f.nets@, n as int, e));
                    return Err(e);
                },
            }
        }
        n += 1;
    }
    let ghost kept = counted_nets(f.nets@, f.nets@.len() as int);
    let ghost table = t;
    let mut s: usize = 0;
    while s < f.sources.len()
        invariant
            s <= f.sources@.len(),
            t.wf(),
            t.sound(*f),
            t.keeps(table),
            forall|i: int| 0 <= i < s ==> is_pin_of(t.pins@, port_pin((#[trigger] f.sources@[i])@)),
        decreases f.sources@.len() - s,
    {
        let p = ClkPin { is_term: false, owner: String::from_str(f.sources[s].as_str()), term: String::new() };
        let ghost before = t;
        let ghost pm = p@;
        proof {
            assert(p@ =~= port_pin(f.sources@[s as int]@));
            assert(is_clock_port(*f, p@));
        }
        t.enter(p, None);
        proof {
            t.lemma_sound(before, *f, pm, None);
            assert forall|i: int| 0 <= i < s + 1 implies is_pin_of(t.pins@, port_pin((#[trigger] f.sources@[i])@)) by {
                if i < s {
                    assert(is_pin_of(before.pins@, port_pin(f.sources@[i]@)));
                }
            }
            assert forall|q: PinModel| is_pin_of(table.pins@, q) implies #[trigger] is_pin_of(t.pins@, q) by {
                assert(is_pin_of(before.pins@, q));
            }
        }
        s += 1;
    }
    proof {
        assert forall|i: int|
            #![trigger kept[i]]
            0 <= i < kept.len() implies ({
            let all = net_entries(f.nets@[kept[i]]);
            t.covers_row(*f, all, all.len() as int)
        }) by {
            assert(entry_models(rows@[i]@) == net_entries(f.nets@[kept[i]]));
            t.lemma_still_covers(table, *f, entry_models(rows@[i]@), rows@[i]@.len() as int);
        }
        assert forall|q: PinModel| is_named(*f, q) implies #[trigger] is_pin_of(t.pins@, q) by {
            lemma_complete(*f, t, q);
        }
        assert forall|q: PinModel| #[trigger] is_pin_of(t.pins@, q) implies is_named(*f, q) by {
            let i = choose|i: int| 0 <= i < t.pins@.len() && (#[trigger] t.pins@[i])@ == q;
            assert(is_named(*f, t.pins@[i]@));
        }
    }
    let mut nets: Vec<Vec<(usize, bool)>> = Vec::new();
    let mut i: usize = 0;
    while i < rows.len()
        invariant
            t.wf(),
            kept.len() == rows@.len(),
            forall|k: int| 0 <= k < rows@.len() ==> entry_models((#[trigger] rows@[k])@) == net_entries(f.nets@[kept[k]]) && t.covers_row(
                *f,
                entry_models(rows@[k]@),
                rows@[k]@.len() as int,
            ) && drivers_in(entry_models(rows@[k]@), rows@[k]@.len() as int) < DRIVER_LIMIT,
            i <= rows@.len(),
            nets@.len() == i,
            forall|k: int| 0 <= k < i ==> is_row_of(t.pins@, (#[trigger] nets@[k])@, net_entries(f.nets@[kept[k]])) && !crowded(nets@[k]@),
        decreases rows@.len() - i,
    {
        let row = &rows[i];
        proof {
            let all = entry_models(row@);
            assert(t.covers_row(*f, all, row@.len() as int));
            assert forall|k: int| 0 <= k < row@.len() implies is_pin_of(t.pins@, (#[trigger] row@[k]).pin@) by {
                assert(t.covers(*f, all[k]));
            }
        }
        nets.push(place_row(&t.pins, row));
        i += 1;
    }
    let mut arcs: Vec<Vec<usize>> = Vec::new();
    let mut inferred: Vec<bool> = Vec::new();
    let mut p: usize = 0;
    while p < t.pins.len()
        invariant
            cells_there(*f),
            t.wf(),
            t.sound(*f),
            forall|q: PinModel| is_named(*f, q) ==> #[trigger] is_pin_of(t.pins@, q),
            p <= t.pins@.len(),
            arcs@.len() == p,
            inferred@.len() == p,
            forall|k: int| 0 <= k < p ==> are_places_of(t.pins@, (#[trigger] arcs@[k])@, targets(*f, t.pins@[k]@, t.cells@[k])),
            forall|k: int| 0 <= k < p ==> #[trigger] inferred@[k] == (t.cells@[k] matches Some(c) && f.cells@[c as int].may_infer),
        decreases t.pins@.len() - p,
    {
        assert(is_cell_of(*f, t.pins@[p as int]@, t.cells@[p as int]));
        let cell = t.cells[p];
        proof {
            if let Some(c) = cell {
                let inst = t.pins@[p as int]@.owner;
                let (n, j) = choose|n: int, j: int| #[trigger] has_term(*f, n, j) && inst_of(f.nets@[n].terms@[j]) == inst && f.nets@[n].terms@[j].cell == Some(c);
                assert(f.nets@[n].terms@[j].cell == Some(c));
            }
        }
        arcs.push(place_arcs(f, &t.pins, &t.pins[p], cell));
        inferred.push(match cell {
            Some(c) => f.cells[c].may_infer,
            None => false,
        });
        p += 1;
    }
    let sources = place_sources(f, &t.pins);
    let graph = ClkNetlist { nets, arcs, inferred, sources };
    proof {
        assert forall|a: int, k: int| 0 <= a < graph.nets@.len() && 0 <= k < graph.nets@[a]@.len() implies (#[trigger] graph.nets@[a]@[k]).0 < graph.pins() by {
            assert(is_row_of(t.pins@, graph.nets@[a]@, net_entries(f.nets@[kept[a]])));
        }
        assert forall|a: int, k: int| 0 <= a < graph.pins() && 0 <= k < graph.arcs@[a]@.len() implies #[trigger] graph.arcs@[a]@[k] < graph.pins() by {
            assert(are_places_of(t.pins@, graph.arcs@[a]@, targets(*f, t.pins@[a]@, t.cells@[a])));
        }
        assert forall|k: int| 0 <= k < graph.sources@.len() implies #[trigger] graph.sources@[k] < graph.pins() by {
            assert(graph.sources@.contains(graph.sources@[k]));
        }
    }
    Ok(ClkDesign { pins: t.pins, cells: t.cells, net_names, graph })
}

// ---- what is said ----

/// What is said of it.
pub open spec fn facts_error_text(e: ClkFactsError) -> Seq<char> {
    match e {
        ClkFactsError::PortDirection { net, io } => "clock network: port on net "@ + net@ + " has direction "@ + io@ + " \u{2014} not modelled"@,
        ClkFactsError::TermDirection { path, io } => "clock network: "@ + path@ + " has direction "@ + io@ + " \u{2014} not modelled"@,
        ClkFactsError::TooManyDrivers { net, drivers } => "clock network: net "@ + net@ + " has "@ + dec(drivers as int) + " drivers \u{2014} isIsolatedNet is not modelled"@,
    }
}

impl ClkFactsError {
    /// What is said of it.
    pub fn message(&self) -> (s: String)
        ensures
            s@ == facts_error_text(*self),
    {
        match self {
            ClkFactsError::PortDirection { net, io } => {
                let mut s = String::from_str("clock network: port on net ");
                s.append(net.as_str());
                s.append(" has direction ");
                s.append(io.as_str());
                s.append(" \u{2014} not modelled");
                s
            },
            ClkFactsError::TermDirection { path, io } => {
                let mut s = String::from_str("clock network: ");
                s.append(path.as_str());
                s.append(" has direction ");
                s.append(io.as_str());
                s.append(" \u{2014} not modelled");
                s
            },
            ClkFactsError::TooManyDrivers { net, drivers } => {
                let mut s = String::from_str("clock network: net ");
                s.append(net.as_str());
                s.append(" has ");
                push_nat(&mut s, *drivers as u64);
                s.append(" drivers \u{2014} isIsolatedNet is not modelled");
                s
            },
        }
    }
}

/// A pin as it is told, its names as they are.
pub open spec fn pin_text(p: PinModel) -> Seq<char> {
    if p.is_term { "ITerm(\""@ + p.owner + "\", \""@ + p.term + "\")"@ } else { "Port(\""@ + p.owner + "\")"@ }
}

fn push_pin(s: &mut String, p: &ClkPin)
    ensures
        final(s)@ == old(s)@ + pin_text(p@),
{
    let ghost s0 = s@;
    if p.is_term {
        s.append("ITerm(\"");
        s.append(p.owner.as_str());
        s.append("\", \"");
        s.append(p.term.as_str());
        s.append("\")");
    } else {
        s.append("Port(\"");
        s.append(p.owner.as_str());
        s.append("\")");
    }
    assert(s@ =~= s0 + pin_text(p@));
}

/// The name of the cell of a pin; empty without one.
pub open spec fn cell_name(f: ClkFacts, cell: Option<usize>) -> Seq<char> {
    match cell {
        Some(c) => f.cells@[c as int].name@,
        None => Seq::empty(),
    }
}

/// What is said of a network that is refused.
pub open spec fn network_error_text(e: ClkNetworkError, f: ClkFacts, d: ClkDesign) -> Seq<char> {
    match e {
        ClkNetworkError::TooManyDrivers { net, drivers } => "clock network: net "@ + d.net_names@[net as int]@ + " has "@ + dec(drivers as int)
            + " drivers \u{2014} isIsolatedNet is not modelled"@,
        ClkNetworkError::UnconnectedSource { pin } => "clock source "@ + pin_text(d.pins@[pin as int]@) + ": no such connected port"@,
        ClkNetworkError::InferredLatch { pin } => "clock network through "@ + d.pins@[pin as int]@.owner + " ("@ + cell_name(f, d.cells@[pin as int])
            + "): inferLatchRoles may re-type its arcs \u{2014} not modelled"@,
        ClkNetworkError::Loop { pin } => "clock network: a combinational loop through "@ + pin_text(d.pins@[pin as int]@) + " \u{2014} isDisabledLoop is not modelled"@,
    }
}

impl ClkNetworkError {
    /// Whether an error speaks of what a netlist has.
    pub open spec fn is_about(&self, f: ClkFacts, d: ClkDesign) -> bool {
        match *self {
            ClkNetworkError::TooManyDrivers { net, drivers } => net < d.net_names@.len(),
            ClkNetworkError::UnconnectedSource { pin } => pin < d.pins@.len(),
            ClkNetworkError::InferredLatch { pin } => pin < d.pins@.len() && pin < d.cells@.len() && (d.cells@[pin as int] matches Some(c) ==> c < f.cells@.len()),
            ClkNetworkError::Loop { pin } => pin < d.pins@.len(),
        }
    }

    /// What is said of it, by the names of the netlist that was searched.
    pub fn message(&self, f: &ClkFacts, d: &ClkDesign) -> (s: String)
        requires
            self.is_about(*f, *d),
        ensures
            s@ == network_error_text(*self, *f, *d),
    {
        match self {
            ClkNetworkError::TooManyDrivers { net, drivers } => {
                let mut s = String::from_str("clock network: net ");
                s.append(d.net_names[*net].as_str());
                s.append(" has ");
                push_nat(&mut s, *drivers as u64);
                s.append(" drivers \u{2014} isIsolatedNet is not modelled");
                s
            },
            ClkNetworkError::UnconnectedSource { pin } => {
                let mut s = String::from_str("clock source ");
                push_pin(&mut s, &d.pins[*pin]);
                s.append(": no such connected port");
                s
            },
            ClkNetworkError::InferredLatch { pin } => {
                let mut s = String::from_str("clock network through ");
                s.append(d.pins[*pin].owner.as_str());
                s.append(" (");
                match d.cells[*pin] {
                    Some(c) => {
                        s.append(f.cells[c].name.as_str());
                    },
                    None => {},
                }
                s.append("): inferLatchRoles may re-type its arcs \u{2014} not modelled");
                assert(s@ =~= network_error_text(*self, *f, *d));
                s
            },
            ClkNetworkError::Loop { pin } => {
                let mut s = String::from_str("clock network: a combinational loop through ");
                push_pin(&mut s, &d.pins[*pin]);
                s.append(" \u{2014} isDisabledLoop is not modelled");
                s
            },
        }
    }
}

/// What the search of a netlist refuses can be told by the netlist's names: it speaks of a net or a pin that is
/// there, and of a cell that is there.
pub proof fn a_refusal_can_be_told(f: ClkFacts, d: ClkDesign, e: ClkNetworkError)
    requires
        cells_there(f),
        is_netlist_of(f, d),
        match e {
            ClkNetworkError::TooManyDrivers { net, drivers } => net < d.graph.nets@.len(),
            ClkNetworkError::UnconnectedSource { pin } => pin < d.graph.pins(),
            ClkNetworkError::InferredLatch { pin } => pin < d.graph.pins(),
            ClkNetworkError::Loop { pin } => pin < d.graph.pins(),
        },
    ensures
        e.is_about(f, d),
{
    if let ClkNetworkError::InferredLatch { pin } = e {
        assert(is_cell_of(f, d.pins@[pin as int]@, d.cells@[pin as int]));
        if let Some(c) = d.cells@[pin as int] {
            let inst = d.pins@[pin as int]@.owner;
            let (n, j) = choose|n: int, j: int| #[trigger] has_term(f, n, j) && inst_of(f.nets@[n].terms@[j]) == inst && f.nets@[n].terms@[j].cell == Some(c);
            assert(f.nets@[n].terms@[j].cell == Some(c));
        }
    }
}

/// The terminals of a net are those whose path has an instance and a name, in order.
pub proof fn the_terminals_of_a_net_are_those_with_a_path(v: Seq<TermOnNet>, n: int)
    requires
        0 <= n,
    ensures
        term_entries(v, n) == all_of(
            n,
            |k: int| if split_path(v[k].path@) is Some { seq![term_entry(v[k])] } else { Seq::empty() },
        ),
    decreases n,
{
    let f = |k: int| if split_path(v[k].path@) is Some { seq![term_entry(v[k])] } else { Seq::empty() };
    if n > 0 {
        the_terminals_of_a_net_are_those_with_a_path(v, n - 1);
        lemma_all_next(n - 1, f);
    } else {
        lemma_all_none(f);
    }
    assert(term_entries(v, n) =~= all_of(n, f));
}

/// A net has as many drivers as it has entries that drive.
pub proof fn the_drivers_of_a_net_are_counted(v: Seq<EntryModel>, n: int)
    requires
        0 <= n,
    ensures
        drivers_in(v, n) == count_of(
            n,
            |k: int| v[k].drives,
        ),
    decreases n,
{
    let f = |k: int| v[k].drives;
    if n > 0 {
        the_drivers_of_a_net_are_counted(v, n - 1);
        lemma_count_next(n - 1, f);
    } else {
        lemma_count_none(f);
    }
}

/// The pins that a terminal leads to in its cell are the ends of the combinational arcs that
/// start there and end at a terminal of the cell, in order.
pub proof fn the_arcs_of_a_terminal_are_the_combinational_ones_from_it(c: CellFacts, inst: Seq<char>, from: Seq<char>, n: int)
    requires
        0 <= n,
    ensures
        arcs_upto(c, inst, from, n) == all_of(
            n,
            |k: int| if counts(c, k) && c.arcs@[k].from@ == from { seq![PinModel { is_term: true, owner: inst, term: c.arcs@[k].to@ }] } else { Seq::empty() },
        ),
    decreases n,
{
    let f = |k: int| if counts(c, k) && c.arcs@[k].from@ == from { seq![PinModel { is_term: true, owner: inst, term: c.arcs@[k].to@ }] } else { Seq::empty() };
    if n > 0 {
        the_arcs_of_a_terminal_are_the_combinational_ones_from_it(c, inst, from, n - 1);
        lemma_all_next(n - 1, f);
    } else {
        lemma_all_none(f);
    }
    assert(arcs_upto(c, inst, from, n) =~= all_of(n, f));
}

/// The nets that are searched are all but those for power and ground, in order.
pub proof fn every_net_but_the_supplies_counts(nets: Seq<NetFacts>, n: int)
    requires
        0 <= n,
    ensures
        counted_nets(nets, n) == all_of(
            n,
            |k: int| if nets[k].sig_type@ == "POWER"@ || nets[k].sig_type@ == "GROUND"@ { Seq::empty() } else { seq![k] },
        ),
    decreases n,
{
    let f = |k: int| if nets[k].sig_type@ == "POWER"@ || nets[k].sig_type@ == "GROUND"@ { Seq::empty() } else { seq![k] };
    if n > 0 {
        every_net_but_the_supplies_counts(nets, n - 1);
        lemma_all_next(n - 1, f);
    } else {
        lemma_all_none(f);
    }
    assert(counted_nets(nets, n) =~= all_of(n, f));
}

/// A path is split at its first slash, and wherever there is one.
pub proof fn a_path_is_split_at_its_first_slash(s: Seq<char>, k: int)
    requires
        0 <= k <= s.len(),
    ensures
        is_first_of(slash_from(s, k), k, s.len() as int, |i: int| s[i] == '/'),
    decreases s.len() - k,
{
    if k < s.len() {
        a_path_is_split_at_its_first_slash(s, k + 1);
    }
}

} // verus!
