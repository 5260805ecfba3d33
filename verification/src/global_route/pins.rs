//! What is decided of the pins that a net is found with.

use crate::lists::{all_of, lemma_all_next, lemma_all_none};
use vstd::prelude::*;
use vstd::string::StringExecFns;

use crate::callbacks::same_text;
use crate::Rect;

verus! {

/// What an instance's master is to its pins.
#[derive(Debug, Clone, Copy, PartialEq, Eq, Structural)]
pub enum MasterClass {
    Pad,
    Block,
    Cover,
    Core,
}

/// The class of a master: a pad before a block before a cover, and else core.
pub fn master_class(is_pad: bool, is_block: bool, is_cover: bool) -> (c: MasterClass)
    ensures
        c == (if is_pad {
            MasterClass::Pad
        } else if is_block {
            MasterClass::Block
        } else if is_cover {
            MasterClass::Cover
        } else {
            MasterClass::Core
        }),
{
    if is_pad {
        MasterClass::Pad
    } else if is_block {
        MasterClass::Block
    } else if is_cover {
        MasterClass::Cover
    } else {
        MasterClass::Core
    }
}

/// The highest level that a net's pins are taken on: a clock net's own where that is set, else the highest routed.
pub fn pin_level_limit(sig_type: &str, clock_max: i32, max_routing_layer: i32) -> (level: i32)
    ensures
        level == (if sig_type@ == "CLOCK"@ && clock_max > 0 { clock_max } else { max_routing_layer }),
{
    if same_text(sig_type, "CLOCK") && clock_max > 0 {
        clock_max
    } else {
        max_routing_layer
    }
}

/// The box of an instance: the four sides that the database gives, or the die where it gives none.
pub fn instance_box(sides: &Vec<i32>, die: Rect) -> (r: Rect)
    ensures
        r == (if sides@.len() == 4 { Rect { x_min: sides@[0], y_min: sides@[1], x_max: sides@[2], y_max: sides@[3] } } else { die }),
{
    if sides.len() == 4 {
        Rect { x_min: sides[0], y_min: sides[1], x_max: sides[2], y_max: sides[3] }
    } else {
        die
    }
}

/// The name of an instance's terminal.
pub open spec fn terminal_name(inst: Seq<char>, term: Seq<char>) -> Seq<char> {
    inst + "/"@ + term
}

/// The name of an instance's terminal.
pub fn name_terminal(inst: &str, term: &str) -> (s: String)
    ensures
        s@ == terminal_name(inst@, term@),
{
    let mut s = String::from_str(inst);
    s.append("/");
    s.append(term);
    s
}

/// Whether an instance's terminal of a direction drives its net: an output does, and so does one of both ways.
pub fn iterm_drives(io: &str) -> (r: bool)
    ensures
        r == is_driving_iterm(io@),
{
    same_text(io, "OUTPUT") || same_text(io, "INOUT")
}

pub open spec fn is_driving_iterm(io: Seq<char>) -> bool {
    io == "OUTPUT"@ || io == "INOUT"@
}

/// Whether a port of a direction drives its net: an input of the block does.
pub fn bterm_drives(io: &str) -> (r: bool)
    ensures
        r == is_driving_bterm(io@),
{
    same_text(io, "INPUT")
}

pub open spec fn is_driving_bterm(io: Seq<char>) -> bool {
    io == "INPUT"@
}

/// A pin that a net is found with: an instance's terminal or a port, by its place in the net's own list, and
/// whether it drives the net.
#[derive(Debug, Clone, Copy, PartialEq, Eq, Structural)]
pub struct FoundPin {
    pub is_port: bool,
    pub place: usize,
    pub drives: bool,
}

/// A port of a net.
#[derive(Debug)]
pub struct PortFacts {
    pub io: String,
    /// Whether a pin can be made of it: it has a shape on a routing layer.
    pub has_pin: bool,
}

/// The pins of the first `n` instance terminals.
pub open spec fn iterm_pins(ios: Seq<String>, n: int) -> Seq<FoundPin> {
    Seq::new(n as nat, |k: int| FoundPin { is_port: false, place: k as usize, drives: is_driving_iterm(ios[k]@) })
}

/// The pins of the first `n` ports; one without a pin is passed over.
pub open spec fn port_pins(ports: Seq<PortFacts>, n: int) -> Seq<FoundPin>
    decreases n,
{
    if n <= 0 {
        Seq::empty()
    } else {
        let p = ports[n - 1];
        if p.has_pin {
            port_pins(ports, n - 1).push(FoundPin { is_port: true, place: (n - 1) as usize, drives: is_driving_bterm(p.io@) })
        } else {
            port_pins(ports, n - 1)
        }
    }
}

/// The pins of a net, each with whether it drives: those of its instance terminals, by their directions, and then
/// those of its ports.
pub fn discover_net_pins(iterm_ios: &Vec<String>, ports: &Vec<PortFacts>) -> (pins: Vec<FoundPin>)
    ensures
        pins@ == iterm_pins(iterm_ios@, iterm_ios@.len() as int) + port_pins(ports@, ports@.len() as int),
{
    let mut pins: Vec<FoundPin> = Vec::new();
    let mut k: usize = 0;
    while k < iterm_ios.len()
        invariant
            k <= iterm_ios@.len(),
            pins@ == iterm_pins(iterm_ios@, k as int),
        decreases iterm_ios@.len() - k,
    {
        pins.push(FoundPin { is_port: false, place: k, drives: iterm_drives(iterm_ios[k].as_str()) });
        k += 1;
        assert(pins@ =~= iterm_pins(iterm_ios@, k as int));
    }
    let ghost first = pins@;
    let mut p: usize = 0;
    assert(pins@ =~= first + port_pins(ports@, 0));
    while p < ports.len()
        invariant
            p <= ports@.len(),
            pins@ == first + port_pins(ports@, p as int),
        decreases ports@.len() - p,
    {
        if ports[p].has_pin {
            pins.push(FoundPin { is_port: true, place: p, drives: bterm_drives(ports[p].io.as_str()) });
        }
        p += 1;
        assert(pins@ =~= first + port_pins(ports@, p as int));
    }
    pins
}

/// The ports found are those with a pin, in order, each with whether it drives.
pub proof fn the_ports_with_a_pin_are_found(ports: Seq<PortFacts>, n: int)
    requires
        0 <= n,
    ensures
        port_pins(ports, n) == all_of(
            n,
            |k: int| if ports[k].has_pin { seq![FoundPin { is_port: true, place: k as usize, drives: is_driving_bterm(ports[k].io@) }] } else { Seq::empty() },
        ),
    decreases n,
{
    let f = |k: int| if ports[k].has_pin { seq![FoundPin { is_port: true, place: k as usize, drives: is_driving_bterm(ports[k].io@) }] } else { Seq::empty() };
    if n > 0 {
        the_ports_with_a_pin_are_found(ports, n - 1);
        lemma_all_next(n - 1, f);
    } else {
        lemma_all_none(f);
    }
    assert(port_pins(ports, n) =~= all_of(n, f));
}

} // verus!
