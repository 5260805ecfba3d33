//! Global routing.

use vstd::prelude::*;

pub mod adjust;
pub mod antenna_check;
pub mod apply;
pub mod brk_rsmt;
pub mod capacity;
pub mod checks3d;
pub mod callbacks;
pub mod cli;
pub mod clk_netlist;
pub mod clk_network;
pub mod congestion;
pub mod congestion_loop;
pub mod cugr;
pub mod driver;
pub mod dsu;
pub mod estimate;
pub mod fillvia;
pub mod finalize;
pub mod findrouting;
pub mod finish;
pub mod full3d;
pub mod global_route;
pub mod graph2d;
pub mod grids;
pub mod init;
pub mod job;
pub mod json;
pub mod lists;
pub mod single;
pub mod sorting;
pub mod steps;
pub mod text;
pub mod tracks;
pub mod tree_usage;
pub mod vecs;

verus! {

/// A rectangle in database units.
#[derive(Debug, Clone, Copy, PartialEq, Eq, Structural, Default)]
pub struct Rect {
    pub x_min: i32,
    pub y_min: i32,
    pub x_max: i32,
    pub y_max: i32,
}

impl Rect {
    pub fn new(x_min: i32, y_min: i32, x_max: i32, y_max: i32) -> (r: Rect)
        ensures
            r == (Rect { x_min, y_min, x_max, y_max }),
    {
        Rect { x_min, y_min, x_max, y_max }
    }
}

/// One step of a net's route, in database units: a wire on one layer, or a via.
#[derive(Debug, Clone, Copy, PartialEq, Eq, Structural)]
pub struct GSegment {
    pub init_x: i32,
    pub init_y: i32,
    pub init_layer: i32,
    pub final_x: i32,
    pub final_y: i32,
    pub final_layer: i32,
    pub is_jumper: bool,
}

impl GSegment {
    pub fn new(init_x: i32, init_y: i32, init_layer: i32, final_x: i32, final_y: i32, final_layer: i32) -> (s: GSegment)
        ensures
            s == (GSegment { init_x, init_y, init_layer, final_x, final_y, final_layer, is_jumper: false }),
    {
        GSegment { init_x, init_y, init_layer, final_x, final_y, final_layer, is_jumper: false }
    }

    /// Whether the segment does not move: a via is told by its position, not by its layers.
    pub fn is_via(&self) -> (b: bool)
        ensures
            b == (self.init_x == self.final_x && self.init_y == self.final_y),
    {
        self.init_x == self.final_x && self.init_y == self.final_y
    }
}

} // verus!
