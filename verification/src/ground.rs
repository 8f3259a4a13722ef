//! Terrain-side probing: a request to check whether the ground at a grid
//! position sits below an externally supplied water level, so that water
//! should be spawned above it.

use vstd::prelude::*;

verus! {

/// A request to probe the terrain cell at `(row, col)` against
/// `water_level` (in milli-units of height).
#[derive(Clone, Copy, Debug)]
pub struct CheckGroundForDraining {
    pub row: i32,
    pub col: i32,
    pub water_level: i64,
}

} // verus!
