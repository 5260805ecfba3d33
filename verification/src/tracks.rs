//! The routing tracks of a layer.

use vstd::prelude::*;

verus! {

/// The tracks of one routing level: the first one's location, their pitch and their number.
#[derive(Debug, Clone, Copy, PartialEq, Eq, Structural)]
pub struct RoutingTracks {
    pub layer_index: i32,
    pub track_pitch: i32,
    pub location: i32,
    pub num_tracks: i32,
}

impl Default for RoutingTracks {
    fn default() -> (r: RoutingTracks)
        ensures
            r == (RoutingTracks { layer_index: 0, track_pitch: 0, location: 0, num_tracks: 0 }),
    {
        RoutingTracks { layer_index: 0, track_pitch: 0, location: 0, num_tracks: 0 }
    }
}

} // verus!
