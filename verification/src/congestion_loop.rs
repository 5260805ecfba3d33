//! The schedule of the congestion loop: what each maze pass is given, and what the loop does with the
//! overflow that is left after it.
//!
//! The passes themselves, the congestion history and the saved trees are the caller's: it asks for
//! the next step and hands back what came of it.

use crate::lists::{all_of, lemma_all_next, lemma_all_none};
use vstd::prelude::*;
use vstd::string::StringExecFns;

use crate::single::{double_of, to_double};
use crate::sorting::{is_order, order_by};

verus! {

/// Larger than any overflow.
pub const BIG_INT: i32 = 1_000_000_000;

/// The steps by which a round's box grows.
pub const ENLARGE: i32 = 15;
pub const ESTEP1: i32 = 10;
pub const ESTEP2: i32 = 5;
pub const ESTEP3: i32 = 5;

/// The steps by which the cost height grows.
pub const COSHEIGHT: i32 = 4;
pub const CSTEP2: i32 = 2;
pub const CSTEP3: i32 = 5;

pub const RIPVALUE: i32 = -1;
pub const TH_STEP1: i32 = 10;
pub const TH_STEP2: i32 = 4;
pub const MAZE_ROUND: i32 = 500;
pub const MAX_OVERFLOW_INCREASES: i32 = 25;
pub const SOFT_NDR_STAGNANT_TH: i32 = 10;
pub const SOFT_NDR_MAX_ITER: i32 = 15;
pub const HEAVY_USAGE: i32 = 800_000;
pub const EXTRA_PASS_ACCU: i32 = 12;

/// What a scan of the plane's overflow gives.
#[derive(Debug, Clone, Copy, PartialEq, Eq, Structural)]
pub struct Overflow2DScan {
    pub max_overflow: i32,
    pub total_overflow: i32,
    pub total_usage: i32,
    pub ahth: i32,
}

/// How often branches fired that a run seldom takes.
#[derive(Debug, Clone, Copy, PartialEq, Eq, Structural)]
pub struct RareBranches {
    pub escape_hatch: u32,
    pub up_type4: u32,
    pub copy_rs: u32,
    pub late_accu: u32,
    pub maze_round: u32,
}

/// One more, up to the largest count.
pub open spec fn one_more(n: u32) -> u32 {
    if n < u32::MAX { (n + 1) as u32 } else { n }
}

fn count_one(n: u32) -> (r: u32)
    ensures
        r == one_more(n),
{
    if n < u32::MAX { n + 1 } else { n }
}

/// The loop's state from one step to the next.
#[derive(Debug, Clone, Copy, PartialEq, Eq, Structural)]
pub struct LoopState {
    pub thresh_m: i32,
    pub cstep1: i32,
    pub via: i32,
    pub i: i32,
    pub costheight: i32,
    pub cost_step: i32,
    pub enlarge: i32,
    pub ripup_threshold: i32,
    pub minofl: i32,
    pub minoflrnd: i32,
    pub stop_dec: bool,
    pub slope: i32,
    pub l: i32,
    pub up_type: i32,
    pub max_adj: i32,
    pub bmfl: i32,
    pub bwcnt: i32,
    pub overflow_increases: i32,
    pub last_total_overflow: i32,
    pub minofl_stagnant: i32,
    pub last_cong: i32,
    pub past_cong: i32,
    pub max_overflow: i32,
    pub total_overflow: i32,
    pub total_usage: i32,
    pub ahth: i32,
    pub rare: RareBranches,
}

/// What a maze pass is given, but for the logistic coefficient and the slack threshold.
#[derive(Debug, Clone, Copy, PartialEq, Eq, Structural)]
pub struct PassPlan {
    pub iter: i32,
    pub expand: i32,
    pub ripup_threshold: i32,
    pub maze_edge_threshold: i32,
    pub ordering: bool,
    pub via: i32,
    pub l: i32,
    pub slope: i32,
    pub cost_height: i32,
}

/// What a round does to the logistic coefficient before it is raised to the round's own.
#[derive(Debug, Clone, Copy, PartialEq, Eq, Structural)]
pub enum CoefficientStep {
    Keep,
    /// Set to 1.33.
    Reset,
    /// Raised by a half.
    Raise,
}

/// What an iteration's own pass is preceded by, and given.
#[derive(Debug, Clone, Copy, PartialEq, Eq, Structural)]
pub struct MainPass {
    pub coefficient: CoefficientStep,
    /// Whether the usage of the round before is recorded anew.
    pub init_last_usage: bool,
    pub pass: PassPlan,
}

/// What follows the passes of an iteration.
#[derive(Debug, Clone, Copy, PartialEq, Eq, Structural)]
pub struct Settled {
    /// By how much the history is strengthened, if at all.
    pub accu: Option<i32>,
    /// The pass that follows once the trees are saved, if they are.
    pub copy_pass: Option<PassPlan>,
}

/// How an iteration ends.
#[derive(Debug, Clone, Copy, PartialEq, Eq, Structural)]
pub enum IterationEnd {
    /// The loop ends.
    Stop,
    /// The loop ends after one scan more.
    Rescan,
    /// The loop goes on; congested nets with a rule of their own are demoted first where asked.
    Continue { demote: bool },
}

// ---- the state and its changes ----

/// The state before the first iteration.
pub open spec fn loop_start(pattern_max_overflow: i32, scan: Overflow2DScan) -> LoopState {
    let big = pattern_max_overflow > 700;
    LoopState {
        thresh_m: if big { 0 } else { 20 },
        cstep1: if big { 30 } else { 2 },
        via: if big { 0 } else { 2 },
        i: 1,
        costheight: COSHEIGHT,
        cost_step: 0,
        enlarge: ENLARGE,
        ripup_threshold: RIPVALUE,
        minofl: scan.total_overflow,
        minoflrnd: 0,
        stop_dec: false,
        slope: 20,
        l: 1,
        up_type: 1,
        max_adj: 0,
        bmfl: BIG_INT,
        bwcnt: 0,
        overflow_increases: -1i32,
        last_total_overflow: 0,
        minofl_stagnant: 0,
        last_cong: 0,
        past_cong: scan.total_overflow,
        max_overflow: scan.max_overflow,
        total_overflow: scan.total_overflow,
        total_usage: scan.total_usage,
        ahth: scan.ahth,
        rare: RareBranches { escape_hatch: 0, up_type4: 0, copy_rs: 0, late_accu: 0, maze_round: 0 },
    }
}

/// The state once an iteration has lowered its threshold, enlarged its box and taken its cost step.
pub open spec fn begun(s: LoopState) -> LoopState {
    LoopState {
        thresh_m: if s.thresh_m > 15 {
            (s.thresh_m - TH_STEP1) as i32
        } else if s.thresh_m >= TH_STEP2 {
            (s.thresh_m - TH_STEP2) as i32
        } else {
            0
        },
        cost_step: if s.total_overflow > 2000 {
            s.cstep1
        } else if s.total_overflow < 500 {
            CSTEP3
        } else {
            CSTEP2
        },
        enlarge: (s.enlarge + (if s.total_overflow > 2000 {
            ESTEP1
        } else if s.total_overflow < 500 {
            ESTEP3
        } else {
            ESTEP2
        })) as i32,
        ripup_threshold: if s.total_overflow < 500 { RIPVALUE } else { s.ripup_threshold },
        rare: RareBranches { up_type4: if s.up_type == 4 || s.stop_dec { one_more(s.rare.up_type4) } else { s.rare.up_type4 }, ..s.rare },
        ..s
    }
}

/// Whether the overflow is so large that the round's box is set anew.
pub open spec fn escapes(s: LoopState) -> bool {
    s.total_overflow > 15000 && s.max_overflow > 400
}

pub open spec fn larger(a: int, b: int) -> int {
    if a > b { a } else { b }
}

pub open spec fn smaller(a: int, b: int) -> int {
    if a < b { a } else { b }
}

/// The state once an iteration's own pass is planned.
pub open spec fn planned(s: LoopState, max_adj: i32, xg: i32, yg: i32) -> LoopState {
    let e = escapes(s);
    let enlarge = if e { larger(xg as int, yg as int) / 30 } else { s.enlarge as int };
    LoopState {
        max_adj,
        enlarge: smaller(enlarge, (xg / 2) as int) as i32,
        costheight: (s.costheight + s.cost_step) as i32,
        via: if e && s.i == 5 { 0 } else { s.via },
        ripup_threshold: if s.max_overflow == 1 {
            RIPVALUE
        } else if e && s.i > 10 {
            0
        } else if e && s.i == 5 {
            RIPVALUE
        } else {
            s.ripup_threshold
        },
        slope: if s.max_overflow == 1 {
            5
        } else if e {
            BIG_INT
        } else {
            s.slope
        },
        l: if s.i == 8 || (s.max_overflow > 300 && s.past_cong > 15000) { 0 } else { s.l },
        up_type: if s.i == 8 { 2 } else { s.up_type },
        rare: RareBranches { escape_hatch: if e { one_more(s.rare.escape_hatch) } else { s.rare.escape_hatch }, ..s.rare },
        ..s
    }
}

/// What a pass is given from a state.
pub open spec fn pass_of(s: LoopState) -> PassPlan {
    PassPlan {
        iter: s.i,
        expand: s.enlarge,
        ripup_threshold: s.ripup_threshold,
        maze_edge_threshold: s.thresh_m,
        ordering: s.i % 3 == 0,
        via: s.via,
        l: s.l,
        slope: s.slope,
        cost_height: s.costheight,
    }
}

/// The state with a scan's numbers.
pub open spec fn scanned(s: LoopState, scan: Overflow2DScan) -> LoopState {
    LoopState {
        last_cong: s.past_cong,
        past_cong: scan.total_overflow,
        max_overflow: scan.max_overflow,
        total_overflow: scan.total_overflow,
        total_usage: scan.total_usage,
        ahth: scan.ahth,
        ..s
    }
}

/// The state after an iteration's own pass: the best round so far, and the iteration counted.
pub open spec fn after_main_pass(s: LoopState, scan: Overflow2DScan) -> LoopState {
    let s = scanned(s, scan);
    let best = s.minofl > s.past_cong;
    let low = s.past_cong < 200 && s.i + 1 > 30 && s.up_type == 2 && s.max_adj <= 20;
    let s = LoopState {
        minofl: if best { s.past_cong } else { s.minofl },
        minoflrnd: if best { s.i } else { s.minoflrnd },
        minofl_stagnant: if best { 0 } else { (s.minofl_stagnant + 1) as i32 },
        l: if s.i == 8 { 1 } else { s.l },
        i: (s.i + 1) as i32,
        up_type: if low { 4 } else { s.up_type },
        stop_dec: s.stop_dec || low,
        ..s
    };
    if wants_extra_pass(s) { LoopState { l: 0, slope: 5, ..s } } else { s }
}

/// Whether one pass more follows in the twentieth iteration.
pub open spec fn wants_extra_pass(s: LoopState) -> bool {
    s.max_overflow < 150 && s.i == 20 && s.past_cong > 200
}

/// The state after that pass.
pub open spec fn after_extra_pass(s: LoopState, scan: Overflow2DScan) -> LoopState {
    LoopState { l: 1, stop_dec: false, slope: 3, up_type: 2, ..scanned(s, scan) }
}

/// Whether `past` is more than seven tenths of `last`, in double precision.
pub open spec fn more_than_seven_tenths(past: int, last: int) -> bool {
    past * 0x20_0000_0000_0000 > to_double((6_305_039_478_318_694 * last) as nat)
}

/// The history's strengthening that follows the passes of an iteration.
pub open spec fn late_accu(s: LoopState) -> Option<i32> {
    if s.max_overflow < 150 && s.i == 35 && s.total_usage > HEAVY_USAGE {
        Some(25i32)
    } else if s.max_overflow < 150 && s.i == 50 && s.total_usage > HEAVY_USAGE {
        Some(40i32)
    } else {
        None
    }
}

/// Whether the trees are saved and one pass more follows.
pub open spec fn saves(s: LoopState) -> bool {
    s.past_cong < s.bmfl && (s.i > 140 || (s.i > 80 && s.past_cong < 20))
}

/// The state once the passes of an iteration are settled.
pub open spec fn settled(s: LoopState) -> LoopState {
    LoopState {
        up_type: if s.i > 50 { 4 } else { s.up_type },
        stop_dec: s.stop_dec || s.i > 70,
        costheight: if more_than_seven_tenths(s.past_cong as int, s.last_cong as int) { (s.costheight + CSTEP3) as i32 } else { s.costheight },
        via: if s.past_cong >= s.last_cong { 0 } else { s.via },
        bwcnt: if s.past_cong < s.bmfl { 0 } else { (s.bwcnt + 1) as i32 },
        bmfl: if saves(s) { s.past_cong } else { s.bmfl },
        l: if saves(s) { 0 } else { s.l },
        rare: RareBranches {
            late_accu: if late_accu(s) is Some { one_more(s.rare.late_accu) } else { s.rare.late_accu },
            copy_rs: if saves(s) { one_more(s.rare.copy_rs) } else { s.rare.copy_rs },
            ..s.rare
        },
        ..s
    }
}

/// The state after the pass that follows the saving of the trees.
pub open spec fn after_copy(s: LoopState, scan: Overflow2DScan) -> LoopState {
    let s = scanned(s, scan);
    let best = s.minofl > s.past_cong;
    LoopState {
        bmfl: if s.past_cong < s.last_cong { s.past_cong } else { s.bmfl },
        l: 1,
        minofl: if best { s.past_cong } else { s.minofl },
        minoflrnd: if best { s.i } else { s.minoflrnd },
        minofl_stagnant: if best { 0 } else { s.minofl_stagnant },
        ..s
    }
}

/// Whether the best overflow has not been beaten for so long that the loop ends.
pub open spec fn is_stuck(s: LoopState) -> bool {
    s.bmfl > 10 && ((s.bmfl > 30 && s.bmfl < 72 && s.bwcnt > 50) || (s.bmfl < 30 && s.bwcnt > 50))
}

/// How an iteration ends.
pub open spec fn end_of(s: LoopState) -> IterationEnd {
    if is_stuck(s) {
        IterationEnd::Stop
    } else if s.i >= MAZE_ROUND {
        IterationEnd::Rescan
    } else {
        IterationEnd::Continue { demote: s.total_overflow > 0 && (s.minofl_stagnant > SOFT_NDR_STAGNANT_TH || s.i > SOFT_NDR_MAX_ITER) }
    }
}

/// The state at an iteration's end.
pub open spec fn ended(s: LoopState) -> LoopState {
    if is_stuck(s) {
        s
    } else if s.i >= MAZE_ROUND {
        LoopState { rare: RareBranches { maze_round: one_more(s.rare.maze_round), ..s.rare }, ..s }
    } else {
        LoopState {
            overflow_increases: if s.total_overflow > s.last_total_overflow { (s.overflow_increases + 1) as i32 } else { s.overflow_increases },
            last_total_overflow: s.total_overflow,
            ..s
        }
    }
}

/// The state with which the loop starts over once nets were demoted.
pub open spec fn restarted(s: LoopState) -> LoopState {
    LoopState {
        overflow_increases: 0,
        minofl_stagnant: 0,
        i: 1,
        costheight: COSHEIGHT,
        enlarge: ENLARGE,
        ripup_threshold: RIPVALUE,
        minofl: s.total_overflow,
        bmfl: s.total_overflow,
        stop_dec: false,
        slope: 20,
        l: 1,
        ..s
    }
}

/// Whether the loop goes on.
pub open spec fn is_running(s: LoopState, overflow_iterations: i32) -> bool {
    s.total_overflow > 0 && s.i <= overflow_iterations && s.overflow_increases <= MAX_OVERFLOW_INCREASES
}

impl LoopState {
    /// Whether the numbers are within the bounds that the schedule keeps them in.
    pub open spec fn wf(&self) -> bool {
        &&& 0 <= self.thresh_m <= 20
        &&& 0 <= self.cstep1 <= 30
        &&& 0 <= self.cost_step <= 30
        &&& 1 <= self.i <= MAZE_ROUND
        &&& 0 <= self.costheight <= 40 * self.i + 10
        &&& -0x4000_0000 <= self.enlarge <= 0x4000_0000
        &&& 0 <= self.minofl_stagnant <= self.i
        &&& -1 <= self.overflow_increases <= MAX_OVERFLOW_INCREASES + 1
        &&& 0 <= self.bwcnt
        &&& 0 <= self.past_cong
        &&& 0 <= self.last_cong
    }

    /// The state before the first iteration.
    pub fn new(pattern_max_overflow: i32, scan: Overflow2DScan) -> (s: Self)
        requires
            scan.total_overflow >= 0,
        ensures
            s == loop_start(pattern_max_overflow, scan),
            s.wf(),
    {
        let big = pattern_max_overflow > 700;
        LoopState {
            thresh_m: if big { 0 } else { 20 },
            cstep1: if big { 30 } else { 2 },
            via: if big { 0 } else { 2 },
            i: 1,
            costheight: COSHEIGHT,
            cost_step: 0,
            enlarge: ENLARGE,
            ripup_threshold: RIPVALUE,
            minofl: scan.total_overflow,
            minoflrnd: 0,
            stop_dec: false,
            slope: 20,
            l: 1,
            up_type: 1,
            max_adj: 0,
            bmfl: BIG_INT,
            bwcnt: 0,
            overflow_increases: -1,
            last_total_overflow: 0,
            minofl_stagnant: 0,
            last_cong: 0,
            past_cong: scan.total_overflow,
            max_overflow: scan.max_overflow,
            total_overflow: scan.total_overflow,
            total_usage: scan.total_usage,
            ahth: scan.ahth,
            rare: RareBranches { escape_hatch: 0, up_type4: 0, copy_rs: 0, late_accu: 0, maze_round: 0 },
        }
    }

    /// Whether the loop goes on.
    pub fn running(&self, overflow_iterations: i32) -> (r: bool)
        ensures
            r == is_running(*self, overflow_iterations),
    {
        self.total_overflow > 0 && self.i <= overflow_iterations && self.overflow_increases <= MAX_OVERFLOW_INCREASES
    }

    /// Begins an iteration. Returns what the congestion history is updated with: the type, the
    /// threshold and whether it may no longer fall.
    pub fn begin(&mut self) -> (r: (i32, i32, bool))
        requires
            old(self).wf(),
            old(self).i < MAZE_ROUND,
        ensures
            *final(self) == begun(*old(self)),
            r == (old(self).up_type, old(self).ahth, old(self).stop_dec),
            final(self).thresh_m <= 20,
            final(self).cost_step <= 30,
    {
        if self.up_type == 4 || self.stop_dec {
            self.rare.up_type4 = count_one(self.rare.up_type4);
        }
        let t: i32 = if self.thresh_m > 15 {
            self.thresh_m - TH_STEP1
        } else if self.thresh_m >= 2 {
            self.thresh_m - TH_STEP2
        } else {
            0
        };
        self.thresh_m = if t > 0 { t } else { 0 };
        if self.total_overflow > 2000 {
            self.enlarge = self.enlarge + ESTEP1;
            self.cost_step = self.cstep1;
        } else if self.total_overflow < 500 {
            self.cost_step = CSTEP3;
            self.enlarge = self.enlarge + ESTEP3;
            self.ripup_threshold = -1;
        } else {
            self.cost_step = CSTEP2;
            self.enlarge = self.enlarge + ESTEP2;
        }
        (self.up_type, self.ahth, self.stop_dec)
    }

    /// Plans an iteration's own pass, from the largest adjustment that the history gave and the sides
    /// of the grid.
    pub fn plan(&mut self, max_adj: i32, xg: i32, yg: i32) -> (r: MainPass)
        requires
            0 <= old(self).costheight <= 40 * old(self).i + 10,
            0 <= old(self).cost_step <= 30,
            1 <= old(self).i < MAZE_ROUND,
            xg >= 0,
            yg >= 0,
        ensures
            *final(self) == planned(*old(self), max_adj, xg, yg),
            r.pass == pass_of(*final(self)),
            r.init_last_usage == (old(self).i == 8),
            r.coefficient == (if !escapes(*old(self)) {
                CoefficientStep::Keep
            } else if old(self).i == 5 {
                CoefficientStep::Reset
            } else if old(self).i > 6 && old(self).i % 2 == 0 {
                CoefficientStep::Raise
            } else {
                CoefficientStep::Keep
            }),
    {
        self.max_adj = max_adj;
        let mut coefficient = CoefficientStep::Keep;
        if self.total_overflow > 15000 && self.max_overflow > 400 {
            self.rare.escape_hatch = count_one(self.rare.escape_hatch);
            self.enlarge = (if xg > yg { xg } else { yg }) / 30;
            self.slope = BIG_INT;
            if self.i == 5 {
                self.via = 0;
                coefficient = CoefficientStep::Reset;
                self.ripup_threshold = -1;
            } else if self.i > 6 && self.i % 2 == 0 {
                coefficient = CoefficientStep::Raise;
            }
            if self.i > 10 {
                self.ripup_threshold = 0;
            }
        }
        let half: i32 = xg / 2;
        if self.enlarge > half {
            self.enlarge = half;
        }
        self.costheight = self.costheight + self.cost_step;
        let init_last_usage = self.i == 8;
        if self.i == 8 {
            self.l = 0;
            self.up_type = 2;
        }
        if self.max_overflow == 1 {
            self.ripup_threshold = -1;
            self.slope = 5;
        }
        if self.max_overflow > 300 && self.past_cong > 15000 {
            self.l = 0;
        }
        MainPass { coefficient, init_last_usage, pass: self.pass() }
    }

    /// What a pass is given now.
    fn pass(&self) -> (p: PassPlan)
        requires
            self.i >= 0,
        ensures
            p == pass_of(*self),
    {
        PassPlan {
            iter: self.i,
            expand: self.enlarge,
            ripup_threshold: self.ripup_threshold,
            maze_edge_threshold: self.thresh_m,
            ordering: self.i % 3 == 0,
            via: self.via,
            l: self.l,
            slope: self.slope,
            cost_height: self.costheight,
        }
    }

    fn scan(&mut self, scan: Overflow2DScan)
        ensures
            *final(self) == scanned(*old(self), scan),
    {
        self.last_cong = self.past_cong;
        self.past_cong = scan.total_overflow;
        self.max_overflow = scan.max_overflow;
        self.total_overflow = scan.total_overflow;
        self.total_usage = scan.total_usage;
        self.ahth = scan.ahth;
    }

    /// Takes the scan after an iteration's own pass. Returns the pass that follows at once, if one
    /// does.
    pub fn after_main(&mut self, scan: Overflow2DScan) -> (r: Option<PassPlan>)
        requires
            1 <= old(self).i < MAZE_ROUND,
            0 <= old(self).minofl_stagnant <= old(self).i,
        ensures
            *final(self) == after_main_pass(*old(self), scan),
            r == (if wants_extra_pass(*final(self)) { Some(pass_of(*final(self))) } else { None }),
            final(self).minofl <= old(self).minofl,
            final(self).minofl <= scan.total_overflow,
    {
        self.scan(scan);
        if self.minofl > self.past_cong {
            self.minofl = self.past_cong;
            self.minoflrnd = self.i;
            self.minofl_stagnant = 0;
        } else {
            self.minofl_stagnant = self.minofl_stagnant + 1;
        }
        if self.i == 8 {
            self.l = 1;
        }
        self.i = self.i + 1;
        if self.past_cong < 200 && self.i > 30 && self.up_type == 2 && self.max_adj <= 20 {
            self.up_type = 4;
            self.stop_dec = true;
        }
        if self.max_overflow < 150 && self.i == 20 && self.past_cong > 200 {
            self.l = 0;
            self.slope = 5;
            Some(self.pass())
        } else {
            None
        }
    }

    /// Takes the scan after the extra pass, and gives by how much the history is strengthened.
    pub fn after_extra(&mut self, scan: Overflow2DScan) -> (accu: i32)
        ensures
            *final(self) == after_extra_pass(*old(self), scan),
            accu == EXTRA_PASS_ACCU,
    {
        self.scan(scan);
        self.l = 1;
        self.stop_dec = false;
        self.slope = 3;
        self.up_type = 2;
        EXTRA_PASS_ACCU
    }

    /// Settles the passes of an iteration.
    pub fn settle(&mut self) -> (r: Settled)
        requires
            1 <= old(self).i <= MAZE_ROUND,
            0 <= old(self).costheight <= 1_000_000,
            0 <= old(self).bwcnt < i32::MAX,
            old(self).last_cong >= 0,
            old(self).past_cong >= 0,
        ensures
            *final(self) == settled(*old(self)),
            r.accu == late_accu(*old(self)),
            r.copy_pass == (if saves(*old(self)) { Some(pass_of(*final(self))) } else { None }),
    {
        let accu: Option<i32> = if self.max_overflow < 150 && self.i == 35 && self.total_usage > HEAVY_USAGE {
            Some(25)
        } else if self.max_overflow < 150 && self.i == 50 && self.total_usage > HEAVY_USAGE {
            Some(40)
        } else {
            None
        };
        if accu.is_some() {
            self.rare.late_accu = count_one(self.rare.late_accu);
        }
        if self.i > 50 {
            self.up_type = 4;
            if self.i > 70 {
                self.stop_dec = true;
            }
        }
        let part: u128 = double_of(6_305_039_478_318_694 * (self.last_cong as u128));
        if (self.past_cong as u128) * 0x20_0000_0000_0000 > part {
            self.costheight = self.costheight + CSTEP3;
        }
        if self.past_cong >= self.last_cong {
            self.via = 0;
        }
        if self.past_cong < self.bmfl {
            self.bwcnt = 0;
            if self.i > 140 || (self.i > 80 && self.past_cong < 20) {
                self.rare.copy_rs = count_one(self.rare.copy_rs);
                self.bmfl = self.past_cong;
                self.l = 0;
                let p = self.pass();
                return Settled { accu, copy_pass: Some(p) };
            }
        } else {
            self.bwcnt = self.bwcnt + 1;
        }
        Settled { accu, copy_pass: None }
    }

    /// Takes the scan after the pass that follows the saving of the trees. Returns whether they are
    /// saved again.
    pub fn after_copy_pass(&mut self, scan: Overflow2DScan) -> (r: bool)
        ensures
            *final(self) == after_copy(*old(self), scan),
            r == (scan.total_overflow < old(self).past_cong),
    {
        self.scan(scan);
        let better = self.past_cong < self.last_cong;
        if better {
            self.bmfl = self.past_cong;
        }
        self.l = 1;
        if self.minofl > self.past_cong {
            self.minofl = self.past_cong;
            self.minoflrnd = self.i;
            self.minofl_stagnant = 0;
        }
        better
    }

    /// Ends an iteration.
    pub fn end_iteration(&mut self) -> (r: IterationEnd)
        requires
            old(self).overflow_increases <= MAX_OVERFLOW_INCREASES,
        ensures
            *final(self) == ended(*old(self)),
            r == end_of(*old(self)),
    {
        if self.bmfl > 10 && ((self.bmfl > 30 && self.bmfl < 72 && self.bwcnt > 50) || (self.bmfl < 30 && self.bwcnt > 50)) {
            return IterationEnd::Stop;
        }
        if self.i >= MAZE_ROUND {
            self.rare.maze_round = count_one(self.rare.maze_round);
            return IterationEnd::Rescan;
        }
        if self.total_overflow > self.last_total_overflow {
            self.overflow_increases = self.overflow_increases + 1;
        }
        self.last_total_overflow = self.total_overflow;
        let demote = self.total_overflow > 0 && (self.minofl_stagnant > SOFT_NDR_STAGNANT_TH || self.i > SOFT_NDR_MAX_ITER);
        IterationEnd::Continue { demote }
    }

    /// Starts the loop over, once nets were demoted.
    pub fn restart(&mut self)
        requires
            old(self).wf(),
            old(self).total_overflow >= 0,
        ensures
            *final(self) == restarted(*old(self)),
            final(self).wf(),
    {
        self.overflow_increases = 0;
        self.minofl_stagnant = 0;
        self.i = 1;
        self.costheight = COSHEIGHT;
        self.enlarge = ENLARGE;
        self.ripup_threshold = RIPVALUE;
        self.minofl = self.total_overflow;
        self.bmfl = self.minofl;
        self.stop_dec = false;
        self.slope = 20;
        self.l = 1;
    }
}

/// The schedule's numbers at a pass, beside what the pass is given.
#[derive(Debug, Clone, Copy, PartialEq, Eq)]
pub struct LoopSchedule {
    pub up_type: i32,
    pub stop_dec: bool,
    pub thresh_m: i32,
    pub cost_step: i32,
    pub max_adj: i32,
    /// What the congestion history was updated with in this iteration.
    pub history_args: (i32, i32, bool),
}

/// Which maze pass is reported.
#[derive(Debug, Clone, Copy, PartialEq, Eq, Structural)]
pub enum PassKind {
    /// The iteration's own.
    Main,
    /// The extra one of the twentieth round.
    Extra20,
    /// The extra one once the trees are saved.
    ExtraCopyRs,
}

/// One maze pass as the loop makes it.
#[derive(Debug, Clone, Copy, PartialEq, Eq)]
pub enum LoopEvent {
    /// Before an iteration's own pass: what it is given, and the schedule that led to it.
    Before { pass: PassPlan, schedule: LoopSchedule },
    /// After a pass and the scan that follows it.
    After { kind: PassKind, iter: i32, scan: Overflow2DScan },
}

/// Which reading of the timer slacks are asked for: for the nets' order in a pass, or for all nets, before layer
/// assignment or in a pass over the layers.
#[derive(Debug, Clone, Copy, PartialEq, Eq, Structural)]
pub enum SlackRead {
    Partial,
    Update { is_3d_step: bool },
}

/// What the timer answers about the nets' slacks.
#[derive(Debug)]
pub enum TimerSlack<T> {
    /// Slacks are not known.
    Unknown,
    /// The same at every call.
    Every(Vec<T>),
    /// Those of each call, in order.
    PerCall(Vec<Vec<T>>),
    /// The timer is run at each call, on the routes as they stand.
    Compute,
}

/// The slacks at a call.
#[derive(Debug, PartialEq, Eq)]
pub enum SlackAnswer<'a, T> {
    Unknown,
    Known(&'a Vec<T>),
    /// The timer is to be asked.
    Ask { read: SlackRead, call: usize },
}

impl<T> TimerSlack<T> {
    /// The slacks at the `k`-th call of a kind, from 0; none beyond the calls that are known.
    pub fn for_call(&self, k: usize, read: SlackRead) -> (r: SlackAnswer<'_, T>)
        ensures
            match *self {
                TimerSlack::Unknown => r is Unknown,
                TimerSlack::Every(s) => r matches SlackAnswer::Known(v) && *v == s,
                TimerSlack::PerCall(calls) => if k < calls@.len() { r matches SlackAnswer::Known(v) && *v == calls@[k as int] } else { r is Unknown },
                TimerSlack::Compute => r matches SlackAnswer::Ask { read: asked, call } && asked == read && call == k,
            },
    {
        match self {
            TimerSlack::Unknown => SlackAnswer::Unknown,
            TimerSlack::Every(s) => SlackAnswer::Known(s),
            TimerSlack::PerCall(v) => {
                if k < v.len() {
                    SlackAnswer::Known(&v[k])
                } else {
                    SlackAnswer::Unknown
                }
            },
            TimerSlack::Compute => SlackAnswer::Ask { read, call: k },
        }
    }
}

/// What the loop leaves.
#[derive(Debug)]
pub struct LoopEnd {
    pub iterations: i32,
    /// The last scan.
    pub scan: Overflow2DScan,
    pub minofl: i32,
    pub minoflrnd: i32,
    pub has_2d_overflow: bool,
    pub enlarge: i32,
    pub rare: RareBranches,
    /// Whether the best round's trees are put back.
    pub restores_best: bool,
    /// The nets that were demoted, in order.
    pub soft_ndr: Vec<usize>,
}

/// The numbers of the last scan.
pub open spec fn last_scan(s: LoopState) -> Overflow2DScan {
    Overflow2DScan { max_overflow: s.max_overflow, total_overflow: s.total_overflow, total_usage: s.total_usage, ahth: s.ahth }
}

/// The state with the scan that ends the loop at its last round: the congestion of the rounds stays.
pub open spec fn rescanned(s: LoopState, scan: Overflow2DScan) -> LoopState {
    LoopState { max_overflow: scan.max_overflow, total_overflow: scan.total_overflow, total_usage: scan.total_usage, ahth: scan.ahth, ..s }
}

impl LoopState {
    /// Takes the scan that ends the loop at its last round.
    pub fn rescan(&mut self, scan: Overflow2DScan)
        ensures
            *final(self) == rescanned(*old(self), scan),
            last_scan(*final(self)) == scan,
    {
        self.max_overflow = scan.max_overflow;
        self.total_overflow = scan.total_overflow;
        self.total_usage = scan.total_usage;
        self.ahth = scan.ahth;
    }

    /// The schedule's numbers, once an iteration's own pass is planned.
    pub fn schedule(&self, history_args: (i32, i32, bool)) -> (r: LoopSchedule)
        ensures
            r == (LoopSchedule { up_type: self.up_type, stop_dec: self.stop_dec, thresh_m: self.thresh_m, cost_step: self.cost_step, max_adj: self.max_adj, history_args }),
    {
        LoopSchedule { up_type: self.up_type, stop_dec: self.stop_dec, thresh_m: self.thresh_m, cost_step: self.cost_step, max_adj: self.max_adj, history_args }
    }

    /// What is reported before an iteration's own pass, once it is planned.
    pub fn before_pass(&self, main: &MainPass, history_args: (i32, i32, bool)) -> (e: LoopEvent)
        ensures
            e == (LoopEvent::Before {
                pass: main.pass,
                schedule: LoopSchedule { up_type: self.up_type, stop_dec: self.stop_dec, thresh_m: self.thresh_m, cost_step: self.cost_step, max_adj: self.max_adj, history_args },
            }),
    {
        LoopEvent::Before { pass: main.pass, schedule: self.schedule(history_args) }
    }

    /// What is reported after a pass, before its scan is taken over: the round is the one that the pass was made in.
    pub fn after_pass(&self, kind: PassKind, scan: Overflow2DScan) -> (e: LoopEvent)
        ensures
            e == (LoopEvent::After { kind, iter: self.i, scan }),
    {
        LoopEvent::After { kind, iter: self.i, scan }
    }

    /// What the loop leaves: the best round's trees come back where even that round overflowed.
    pub fn finish(&self, soft_ndr: Vec<usize>) -> (r: LoopEnd)
        requires
            self.i > i32::MIN,
        ensures
            r.iterations == self.i - 1,
            r.scan == last_scan(*self),
            r.minofl == self.minofl,
            r.minoflrnd == self.minoflrnd,
            r.has_2d_overflow == (self.total_overflow > 0),
            r.enlarge == self.enlarge,
            r.rare == self.rare,
            r.restores_best == (self.minofl > 0),
            r.soft_ndr == soft_ndr,
    {
        LoopEnd {
            iterations: self.i - 1,
            scan: Overflow2DScan { max_overflow: self.max_overflow, total_overflow: self.total_overflow, total_usage: self.total_usage, ahth: self.ahth },
            minofl: self.minofl,
            minoflrnd: self.minoflrnd,
            has_2d_overflow: self.total_overflow > 0,
            enlarge: self.enlarge,
            rare: self.rare,
            restores_best: self.minofl > 0,
            soft_ndr,
        }
    }
}

/// The state after a whole iteration: its own pass, the extra pass where it is wanted, and the pass that follows
/// once the trees are saved, each with the scan after it.
pub open spec fn iterated(s: LoopState, max_adj: i32, xg: i32, yg: i32, scan: Overflow2DScan, extra: Overflow2DScan, copy: Overflow2DScan) -> LoopState {
    let c = after_main_pass(planned(begun(s), max_adj, xg, yg), scan);
    let d = if wants_extra_pass(c) { after_extra_pass(c, extra) } else { c };
    ended(if saves(d) { after_copy(settled(d), copy) } else { settled(d) })
}

/// A whole iteration keeps the schedule's numbers in their bounds, whatever its scans give, so that the next one
/// can begin.
pub proof fn an_iteration_keeps_the_bounds(s: LoopState, max_adj: i32, xg: i32, yg: i32, scan: Overflow2DScan, extra: Overflow2DScan, copy: Overflow2DScan)
    requires
        s.wf(),
        s.i < MAZE_ROUND,
        s.overflow_increases <= MAX_OVERFLOW_INCREASES,
        s.bwcnt < i32::MAX,
        0 <= xg,
        0 <= yg,
        scan.total_overflow >= 0,
        extra.total_overflow >= 0,
        copy.total_overflow >= 0,
    ensures
        iterated(s, max_adj, xg, yg, scan, extra, copy).wf(),
{
    let a = begun(s);
    let b = planned(a, max_adj, xg, yg);
    let c = after_main_pass(b, scan);
    let d = if wants_extra_pass(c) { after_extra_pass(c, extra) } else { c };
    assert(larger(xg as int, yg as int) / 30 <= 0x4000_0000);
    assert((xg / 2) as int <= 0x4000_0000);
    assert(b.costheight <= 40 * s.i + 40);
    assert(settled(d).costheight <= b.costheight + 5);
}

/// The least overflow of any pass is what the loop remembers as its best round.
pub proof fn the_best_round_is_remembered(s: LoopState, scan: Overflow2DScan)
    ensures
        after_main_pass(s, scan).minofl == smaller(s.minofl as int, scan.total_overflow as int),
        after_copy(s, scan).minofl == smaller(s.minofl as int, scan.total_overflow as int),
{
}

// ---- the edges under a route ----

/// One edge of the plane.
#[derive(Debug, Clone, Copy, PartialEq, Eq, Structural)]
pub struct PlaneEdge {
    pub x: i32,
    pub y: i32,
    pub horizontal: bool,
}

/// The edge that a step takes: none for a step in place.
pub open spec fn step_edge(a: (i32, i32), b: (i32, i32)) -> Option<PlaneEdge> {
    if a == b {
        None
    } else if a.0 == b.0 {
        Some(PlaneEdge { x: a.0, y: if a.1 < b.1 { a.1 } else { b.1 }, horizontal: false })
    } else {
        Some(PlaneEdge { x: if a.0 < b.0 { a.0 } else { b.0 }, y: a.1, horizontal: true })
    }
}

/// The edges that the first `n` steps of a route take.
pub open spec fn route_edges_upto(grids: Seq<(i32, i32)>, n: int) -> Seq<PlaneEdge>
    decreases n,
{
    if n <= 0 {
        Seq::empty()
    } else {
        let s = route_edges_upto(grids, n - 1);
        match step_edge(grids[n - 1], grids[n]) {
            Some(e) => s.push(e),
            None => s,
        }
    }
}

/// The edges of the plane under a route, in the order of its steps: what is given back or charged
/// when the route's usage moves. A route without steps has none.
pub fn route_edges(grids: &Vec<(i32, i32)>, routelen: i32) -> (r: Vec<PlaneEdge>)
    requires
        routelen > 0 ==> routelen < grids@.len(),
    ensures
        r@ == route_edges_upto(grids@, routelen as int),
{
    let mut r: Vec<PlaneEdge> = Vec::new();
    let mut k: i32 = 0;
    while k < routelen
        invariant
            0 <= k,
            k <= routelen || routelen <= 0,
            routelen > 0 ==> routelen < grids@.len(),
            r@ == route_edges_upto(grids@, k as int),
            routelen <= 0 ==> k == 0,
        decreases routelen - k,
    {
        let (a, b) = (grids[k as usize], grids[k as usize + 1]);
        if a.0 == b.0 && a.1 == b.1 {
            assert(a == b);
        } else if a.0 == b.0 {
            r.push(PlaneEdge { x: a.0, y: if a.1 < b.1 { a.1 } else { b.1 }, horizontal: false });
        } else {
            r.push(PlaneEdge { x: if a.0 < b.0 { a.0 } else { b.0 }, y: a.1, horizontal: true });
        }
        k += 1;
    }
    r
}

// ---- demotion ----

/// The counts with their signs turned.
pub open spec fn turned(counts: Seq<(usize, i32)>) -> Seq<i64> {
    counts.map_values(|c: (usize, i32)| -(c.1 as int) as i64)
}

/// Whether two of the nets have the same count.
pub open spec fn has_tie(counts: Seq<(usize, i32)>) -> bool {
    exists|i: int, j: int| 0 <= i < j < counts.len() && (#[trigger] counts[i]).1 == (#[trigger] counts[j]).1
}

/// The words on a tie.
pub open spec fn tie_words() -> Seq<char> {
    "soft-NDR: two congested NDR nets tie on their count — libc++'s unstable sort order is not modelled"@
}

/// The nets to demote, the one with the most congested edges first. Refused where two of them have as
/// many: their order is not determined.
pub fn demotion_order(counts: &[(usize, i32)]) -> (r: Result<Vec<usize>, String>)
    ensures
        match r {
            Ok(ids) => {
                &&& !has_tie(counts@)
                &&& exists|p: Seq<usize>| #[trigger] is_order(turned(counts@), p) && ids@ == p.map_values(|k: usize| counts@[k as int].0)
            },
            Err(e) => has_tie(counts@) && e@ == tie_words(),
        },
{
    let mut keys: Vec<i64> = Vec::new();
    let mut k: usize = 0;
    while k < counts.len()
        invariant
            k <= counts@.len(),
            keys@ == turned(counts@.take(k as int)),
        decreases counts@.len() - k,
    {
        keys.push(-(counts[k].1 as i64));
        k += 1;
        assert(keys@ =~= turned(counts@.take(k as int)));
    }
    assert(counts@.take(k as int) =~= counts@);
    let p = order_by(&keys);
    let mut ids: Vec<usize> = Vec::new();
    k = 0;
    while k < p.len()
        invariant
            k <= p@.len(),
            p@.len() == counts@.len(),
            keys@ == turned(counts@),
            is_order(keys@, p@),
            ids@ == p@.take(k as int).map_values(|j: usize| counts@[j as int].0),
            forall|i: int, j: int| 0 <= i < j < k ==> counts@[(#[trigger] p@[i]) as int].1 > counts@[(#[trigger] p@[j]) as int].1,
        decreases p@.len() - k,
    {
        let at: usize = p[k];
        if k > 0 {
            let prev: usize = p[k - 1];
            proof {
                assert(crate::sorting::comes_before(keys@, prev, at));
                assert(keys@[prev as int] == -(counts@[prev as int].1 as int) as i64);
                assert(keys@[at as int] == -(counts@[at as int].1 as int) as i64);
            }
            if counts[prev].1 == counts[at].1 {
                proof {
                    if prev < at {
                        assert(counts@[prev as int].1 == counts@[at as int].1);
                    } else {
                        assert(counts@[at as int].1 == counts@[prev as int].1);
                    }
                }
                return Err(String::from_str("soft-NDR: two congested NDR nets tie on their count — libc++'s unstable sort order is not modelled"));
            }
        }
        ids.push(counts[at].0);
        k += 1;
        assert(ids@ =~= p@.take(k as int).map_values(|j: usize| counts@[j as int].0));
    }
    proof {
        assert(p@.take(k as int) =~= p@);
        if has_tie(counts@) {
            let (i, j) = choose|i: int, j: int| 0 <= i < j < counts@.len() && (#[trigger] counts@[i]).1 == (#[trigger] counts@[j]).1;
            crate::sorting::an_order_lists_every_place(keys@, p@, i);
            crate::sorting::an_order_lists_every_place(keys@, p@, j);
            let a = choose|a: int| 0 <= a < p@.len() && p@[a] == i as usize;
            let b = choose|b: int| 0 <= b < p@.len() && p@[b] == j as usize;
            if a < b {
                assert(counts@[p@[a] as int].1 > counts@[p@[b] as int].1);
            } else if b < a {
                assert(counts@[p@[b] as int].1 > counts@[p@[a] as int].1);
            }
        }
    }
    Ok(ids)
}

/// A route takes the edge of every step that moves, in order.
pub proof fn a_route_takes_the_edge_of_every_step(grids: Seq<(i32, i32)>, n: int)
    requires
        0 <= n,
    ensures
        route_edges_upto(grids, n) == all_of(
            n,
            |k: int| if step_edge(grids[k], grids[k + 1]) is Some { seq![step_edge(grids[k], grids[k + 1])->Some_0] } else { Seq::empty() },
        ),
    decreases n,
{
    let f = |k: int| if step_edge(grids[k], grids[k + 1]) is Some { seq![step_edge(grids[k], grids[k + 1])->Some_0] } else { Seq::empty() };
    if n > 0 {
        a_route_takes_the_edge_of_every_step(grids, n - 1);
        lemma_all_next(n - 1, f);
    } else {
        lemma_all_none(f);
    }
    assert(route_edges_upto(grids, n) =~= all_of(n, f));
}

/// The thresholds move one way: an iteration lowers the threshold for edges and not under zero, enlarges
/// the box, raises the height of the cost, and its bookkeeping never worsens the best overflow nor the best
/// that was saved.
pub proof fn an_iteration_moves_one_way(s: LoopState, max_adj: i32, xg: i32, yg: i32, scan: Overflow2DScan)
    requires
        0 <= s.thresh_m,
        0 <= s.enlarge <= i32::MAX - 100,
        0 <= s.costheight <= i32::MAX - 100,
        0 <= s.cost_step <= 50,
        0 <= s.cstep1 <= 50,
        0 <= s.i < i32::MAX,
    ensures
        0 <= begun(s).thresh_m <= s.thresh_m,
        s.thresh_m > 0 ==> begun(s).thresh_m < s.thresh_m,
        begun(s).enlarge >= s.enlarge,
        planned(s, max_adj, xg, yg).costheight == s.costheight + s.cost_step,
        after_main_pass(s, scan).minofl <= s.minofl,
        after_main_pass(s, scan).minofl <= scan.total_overflow,
        after_main_pass(s, scan).i == s.i + 1,
        after_main_pass(s, scan).last_cong == s.past_cong,
        after_main_pass(s, scan).past_cong == scan.total_overflow,
        s.stop_dec ==> after_main_pass(s, scan).stop_dec,
        settled(s).bmfl <= s.bmfl,
        saves(s) ==> settled(s).bmfl == s.past_cong && s.past_cong < s.bmfl,
        settled(s).costheight >= s.costheight,
        s.stop_dec ==> settled(s).stop_dec,
        after_copy(s, scan).minofl <= s.minofl,
        after_copy(s, scan).minofl <= scan.total_overflow,
{
}

/// A step takes the edge between its two cells, whichever way it is walked, and standing still takes none.
pub proof fn a_step_takes_one_edge_both_ways(a: (i32, i32), b: (i32, i32))
    requires
        a.0 == b.0 || a.1 == b.1,
    ensures
        step_edge(a, b) == step_edge(b, a),
        step_edge(a, b) is None <==> a == b,
        step_edge(a, b) matches Some(e) ==> e.horizontal == (a.1 == b.1) && (e.x == a.0 && e.y == a.1 || e.x == b.0 && e.y == b.1),
{
}

} // verus!
