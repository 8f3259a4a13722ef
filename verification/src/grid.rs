//! Grid cells: the leaf data entity of both the terrain and the water
//! population. A cell is identified by its `(row, col)` coordinates; its
//! `layer` is mutable height state, not identity.

use vstd::prelude::*;

verus! {

/// One grid level step, in milli-units of height (0.5 world units).
pub const CELL_HEIGHT: i64 = 500;

/// Bound on the magnitude of any height the engine stores. Far below
/// `i64::MAX`, so every single-step height change fits in an `i64`.
pub const HEIGHT_LIMIT: i64 = 2_000_000_000_000;

/// One terrain or water unit, addressed by `(row, col)`; `layer` is its
/// target height in milli-units.
#[derive(Clone, Copy, Debug)]
pub struct GridCell {
    pub row: i32,
    pub col: i32,
    pub layer: i64,
}

impl GridCell {
    /// Two cells are the same cell iff their coordinates match; height is
    /// state, not identity.
    pub open spec fn same_cell(self, other: GridCell) -> bool {
        self.row == other.row && self.col == other.col
    }

    /// Builds a cell from grid coordinates: `level` counts whole grid steps.
    pub fn from_grid_coordinates(row: i32, col: i32, level: i32) -> (c: GridCell)
        ensures
            c.row == row,
            c.col == col,
            c.layer == level * CELL_HEIGHT,
    {
        GridCell { row, col, layer: (level as i64) * CELL_HEIGHT }
    }
}

impl PartialEq for GridCell {
    fn eq(&self, other: &GridCell) -> (r: bool) {
        self.row == other.row && self.col == other.col
    }
}

impl vstd::std_specs::cmp::PartialEqSpecImpl for GridCell {
    open spec fn obeys_eq_spec() -> bool {
        true
    }

    open spec fn eq_spec(&self, other: &GridCell) -> bool {
        self.same_cell(*other)
    }
}

} // verus!
