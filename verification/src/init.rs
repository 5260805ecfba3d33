//! The grid of routing cells.

use vstd::prelude::*;

use crate::Rect;

verus! {

/// The routing grid: square cells over the die.
#[derive(Debug, Clone, Copy, PartialEq, Eq, Structural)]
pub struct CoreGrid {
    pub area: Rect,
    pub tile_size: i32,
    pub x_grids: i32,
    pub y_grids: i32,
    pub num_layers: i32,
    pub perfect_regular_x: bool,
    pub perfect_regular_y: bool,
}

} // verus!
