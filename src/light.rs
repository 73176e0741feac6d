//! Point lights.
use vstd::prelude::*;
use crate::vector3d::{Vector3d, bounded};
use crate::entity::COORD_LIMIT;

verus! {

/// Largest accepted light intensity (fixed-point).
pub const INTENSITY_LIMIT: i64 = 68719476736;

/// A point light: a position and a constant intensity.
#[derive(Debug, Clone, Copy, PartialEq, Eq, Structural)]
pub struct Light {
    pub position: Vector3d,
    pub intensity: i64,
}

impl Light {
    /// The light stands in the scene's bounds and has a non-negative
    /// intensity within the accepted range.
    pub open spec fn wf(&self) -> bool {
        bounded(self.position@, COORD_LIMIT as int) && 0 <= self.intensity <= INTENSITY_LIMIT
    }

    /// Whether the position and intensity lie in the accepted ranges.
    pub fn is_valid(&self) -> (r: bool)
        ensures
            r == self.wf(),
    {
        let p = self.position;
        -COORD_LIMIT <= p.x && p.x <= COORD_LIMIT && -COORD_LIMIT <= p.y && p.y <= COORD_LIMIT
            && -COORD_LIMIT <= p.z && p.z <= COORD_LIMIT && 0 <= self.intensity && self.intensity
            <= INTENSITY_LIMIT
    }

    pub fn new(position: Vector3d, intensity: i64) -> (l: Light)
        ensures
            l == (Light { position, intensity }),
    {
        Light { position, intensity }
    }
}

} // verus!
