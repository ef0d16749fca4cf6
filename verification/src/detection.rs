//! Data model: boxes, per-frame detections and the tracked output rows.

use vstd::prelude::*;
use crate::COORD_LIMIT;

verus! {

/// An axis-aligned bounding box `(x1, y1, x2, y2)` in fixed-point
/// coordinates. A box is non-degenerate when `x1 < x2` and `y1 < y2`.
#[derive(Clone, Copy, Debug, PartialEq, Eq, Structural)]
pub struct BBox {
    pub x1: i64,
    pub y1: i64,
    pub x2: i64,
    pub y2: i64,
}

impl BBox {
    /// Every coordinate stays within `COORD_LIMIT`, so that areas and
    /// filter products fit in an `i128`.
    pub open spec fn wf(self) -> bool {
        &&& -COORD_LIMIT <= self.x1 <= COORD_LIMIT
        &&& -COORD_LIMIT <= self.y1 <= COORD_LIMIT
        &&& -COORD_LIMIT <= self.x2 <= COORD_LIMIT
        &&& -COORD_LIMIT <= self.y2 <= COORD_LIMIT
    }
}

/// One detection of the current frame: a box, the detector's class label and
/// a confidence score (fixed-point, nominally in `[0, SCALE]`).
#[derive(Clone, Copy, Debug, PartialEq, Eq, Structural)]
pub struct Detection {
    pub box_coords: BBox,
    pub class_id: i64,
    pub score: i64,
}

/// One output row of a frame: a box and the identity it was given.
/// `tracker_id == -1` marks a detection that carries no activated identity.
#[derive(Clone, Copy, Debug, PartialEq, Eq, Structural)]
pub struct TrackedDetection {
    pub box_coords: BBox,
    pub tracker_id: i64,
}

} // verus!
