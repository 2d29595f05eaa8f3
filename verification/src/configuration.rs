//! The surveyed anchor positions.
//!
//! Slot order is significant: the distance at position `i` of a range
//! report was measured against the anchor in slot `i`.

use vstd::prelude::*;

verus! {

/// Number of anchor slots.
pub const ANCHOR_COUNT: usize = 8;

/// A surveyed position in decimetres.
#[derive(Debug, PartialEq, Eq, Clone, Copy, Structural)]
pub struct AnchorCoordinate {
    pub x: i32,
    pub y: i32,
    pub z: i32,
}

/// The anchor positions by slot, in decimetres.
pub open spec fn anchor_table() -> Seq<AnchorCoordinate> {
    seq![
        AnchorCoordinate { x: 61, y: 92, z: 30 },
        AnchorCoordinate { x: 50, y: 0, z: 27 },
        AnchorCoordinate { x: 89, y: 91, z: 30 },
        AnchorCoordinate { x: 38, y: 0, z: 25 },
        AnchorCoordinate { x: 8, y: 0, z: 28 },
        AnchorCoordinate { x: 20, y: 90, z: 30 },
        AnchorCoordinate { x: 57, y: 92, z: 15 },
        AnchorCoordinate { x: 61, y: 92, z: 0 },
    ]
}

/// The position of the anchor in `slot`.
pub fn anchor_coordinate(slot: usize) -> (c: AnchorCoordinate)
    requires
        slot < ANCHOR_COUNT,
    ensures
        c == anchor_table()[slot as int],
{
    if slot == 0 {
        AnchorCoordinate { x: 61, y: 92, z: 30 }
    } else if slot == 1 {
        AnchorCoordinate { x: 50, y: 0, z: 27 }
    } else if slot == 2 {
        AnchorCoordinate { x: 89, y: 91, z: 30 }
    } else if slot == 3 {
        AnchorCoordinate { x: 38, y: 0, z: 25 }
    } else if slot == 4 {
        AnchorCoordinate { x: 8, y: 0, z: 28 }
    } else if slot == 5 {
        AnchorCoordinate { x: 20, y: 90, z: 30 }
    } else if slot == 6 {
        AnchorCoordinate { x: 57, y: 92, z: 15 }
    } else {
        AnchorCoordinate { x: 61, y: 92, z: 0 }
    }
}

} // verus!
