//! Grid-based terrain deformation and fluid leveling engine.
//!
//! A regular 2D grid of terrain cells can be raised or lowered; each change
//! propagates to adjacent cells under a maximum-slope rule. Water cells sit
//! above terrain cells, seek a common level across their own adjacency graph,
//! and appear or disappear as the terrain reshapes around them.
//!
//! Heights are fixed-point integers in milli-units: one grid level step
//! (`CELL_HEIGHT`) is 500 milli-units, i.e. 0.5 world units.

pub mod console_commands;
pub mod fluid_dynamics;
pub mod grid;
pub mod ground;
pub mod map;
pub mod neighborhood;
pub mod pair;
pub mod shifting;
pub mod simulation;
pub mod water;
