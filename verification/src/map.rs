//! Map generation settings and the generation routine: a square grid of
//! terrain cells, flat or shaped by per-cell level values that an outside
//! curve supplies as plain integers.

use vstd::prelude::*;

use crate::grid::{GridCell, CELL_HEIGHT};
use crate::neighborhood::{connect_grid_cells, unique_coords};

verus! {

/// The default side length of a generated map.
pub const MAP_SIZE_DEFAULT: i32 = 8;

/// The largest accepted side length of a generated map.
pub const MAP_SIZE_LIMIT: i32 = 128;

/// A pair of per-axis curve parameters, in milli-units.
#[derive(Clone, Copy, Debug, PartialEq, Eq, Structural)]
pub struct Axis2 {
    pub x: i64,
    pub y: i64,
}

/// Parameters of curved terrain: per-axis amplitude, wavelength, vertical
/// shift and phase shift, in milli-units.
#[derive(Clone, Copy, Debug, PartialEq, Eq, Structural)]
pub struct CurvedTerrainSettings {
    pub amplitude: Axis2,
    pub wavelength: Axis2,
    pub vertical_shift: Axis2,
    pub phase_shift: Axis2,
}

impl Default for CurvedTerrainSettings {
    /// All curve parameters start at zero.
    fn default() -> (r: CurvedTerrainSettings)
        ensures
            r == (CurvedTerrainSettings {
                amplitude: Axis2 { x: 0, y: 0 },
                wavelength: Axis2 { x: 0, y: 0 },
                vertical_shift: Axis2 { x: 0, y: 0 },
                phase_shift: Axis2 { x: 0, y: 0 },
            }),
    {
        CurvedTerrainSettings {
            amplitude: Axis2 { x: 0, y: 0 },
            wavelength: Axis2 { x: 0, y: 0 },
            vertical_shift: Axis2 { x: 0, y: 0 },
            phase_shift: Axis2 { x: 0, y: 0 },
        }
    }
}

/// The shape of generated terrain: flat, or curved with parameters.
#[derive(Clone, Copy, Debug, PartialEq, Eq, Structural)]
pub enum TerrainSettings {
    FLAT,
    CURVED(CurvedTerrainSettings),
}

/// Everything map generation needs: the side length and the terrain
/// shape.
#[derive(Clone, Copy, Debug, PartialEq, Eq, Structural)]
pub struct MapGenerationSettings {
    pub size: i32,
    pub terrain: TerrainSettings,
}

impl Default for MapGenerationSettings {
    /// The default map is flat with the default side length.
    fn default() -> (r: MapGenerationSettings)
        ensures
            r.size == MAP_SIZE_DEFAULT,
            r.terrain == TerrainSettings::FLAT,
    {
        MapGenerationSettings { size: MAP_SIZE_DEFAULT, terrain: TerrainSettings::FLAT }
    }
}

/// The most recently applied generation settings, kept so that
/// persistence can save them.
#[derive(Clone, Copy, Debug)]
pub struct CurrentMapSettings {
    pub value: MapGenerationSettings,
}

impl Default for CurrentMapSettings {
    fn default() -> (r: CurrentMapSettings)
        ensures
            r.value.size == MAP_SIZE_DEFAULT,
            r.value.terrain == TerrainSettings::FLAT,
    {
        CurrentMapSettings { value: MapGenerationSettings::default() }
    }
}

/// Why a generation request was rejected; the previous map state is left
/// unchanged in every rejected case.
#[derive(Clone, Copy, Debug, PartialEq, Eq, Structural)]
pub enum MapError {
    InvalidSize,
    WrongLevelCount,
}

/// The terrain cell of a generated map at grid position `(row, col)` with
/// level `level`: its target layer is the level scaled to height units.
pub open spec fn generated_cell(row: int, col: int, level: int) -> GridCell {
    GridCell { row: row as i32, col: col as i32, layer: (level * CELL_HEIGHT) as i64 }
}

/// Builds the terrain cell population of a square map of side `size`,
/// row-major, with per-cell levels. Fails with `InvalidSize` when the
/// side length is negative or above `MAP_SIZE_LIMIT`, and with
/// `WrongLevelCount` when the level list does not cover the grid; the
/// result is exactly the row-major grid otherwise.
pub fn generate_cells(size: i32, levels: &Vec<i32>) -> (r: Result<Vec<GridCell>, MapError>)
    ensures
        (size < 0 || size > MAP_SIZE_LIMIT) <==> (r == Result::<Vec<GridCell>, MapError>::Err(MapError::InvalidSize)),
        0 <= size <= MAP_SIZE_LIMIT && levels@.len() != size * size
            ==> r == Result::<Vec<GridCell>, MapError>::Err(MapError::WrongLevelCount),
        (0 <= size <= MAP_SIZE_LIMIT && levels@.len() == size * size) <==> r is Ok,
        r matches Ok(cells) ==> {
            &&& levels@.len() == size * size
            &&& cells@.len() == size * size
            &&& forall|i: int, j: int| 0 <= i < size && 0 <= j < size
                ==> #[trigger] cells@[i * size + j] == generated_cell(i, j, levels@[i * size + j] as int)
            &&& forall|k: int| 0 <= k < cells@.len()
                ==> -crate::grid::HEIGHT_LIMIT <= (#[trigger] cells@[k]).layer <= crate::grid::HEIGHT_LIMIT
        },
{
    if size < 0 || size > MAP_SIZE_LIMIT {
        return Err(MapError::InvalidSize);
    }
    proof {
        assert(size * size <= MAP_SIZE_LIMIT * MAP_SIZE_LIMIT) by (nonlinear_arith)
            requires 0 <= size <= MAP_SIZE_LIMIT,
            ;
    }
    let expected = (size as usize) * (size as usize);
    if levels.len() != expected {
        return Err(MapError::WrongLevelCount);
    }
    let n = size as usize;
    let mut cells: Vec<GridCell> = Vec::new();
    let mut i: usize = 0;
    while i < n
        invariant
            n == size,
            0 <= size <= MAP_SIZE_LIMIT,
            levels@.len() == size * size,
            i <= n,
            cells@.len() == i * n,
            forall|a: int, b: int| 0 <= a < i && 0 <= b < n
                ==> #[trigger] cells@[a * n + b] == generated_cell(a, b, levels@[a * n + b] as int),
            forall|k: int| 0 <= k < cells@.len()
                ==> -crate::grid::HEIGHT_LIMIT <= (#[trigger] cells@[k]).layer <= crate::grid::HEIGHT_LIMIT,
        decreases n - i,
    {
        let mut j: usize = 0;
        while j < n
            invariant
                n == size,
                0 <= size <= MAP_SIZE_LIMIT,
                levels@.len() == size * size,
                i < n,
                j <= n,
                cells@.len() == i * n + j,
                forall|a: int, b: int| 0 <= a < i && 0 <= b < n
                    ==> #[trigger] cells@[a * n + b] == generated_cell(a, b, levels@[a * n + b] as int),
                forall|b: int| 0 <= b < j
                    ==> #[trigger] cells@[i * n + b] == generated_cell(i as int, b, levels@[i * n + b] as int),
                forall|k: int| 0 <= k < cells@.len()
                    ==> -crate::grid::HEIGHT_LIMIT <= (#[trigger] cells@[k]).layer <= crate::grid::HEIGHT_LIMIT,
        decreases n - j,
        {
            proof {
                assert(i * n + j < size * size && i * n + j <= MAP_SIZE_LIMIT * MAP_SIZE_LIMIT) by (nonlinear_arith)
                    requires
                        0 <= i < n,
                        0 <= j < n,
                        n == size,
                        size <= MAP_SIZE_LIMIT,
                    ;
            }
            let idx = i * n + j;
            let level = levels[idx];
            cells.push(GridCell {
                row: i as i32,
                col: j as i32,
                layer: (level as i64) * CELL_HEIGHT,
            });
            j = j + 1;
            proof {
                assert forall|a: int, b: int| 0 <= a < i && 0 <= b < n
                    implies #[trigger] cells@[a * n + b]
                        == generated_cell(a, b, levels@[a * n + b] as int) by {
                    assert(0 <= a * n + b && a * n + b < i * n) by (nonlinear_arith)
                        requires 0 <= a < i, 0 <= b < n,
                        ;
                }
            }
        }
        i = i + 1;
        proof {
            assert((i - 1) * n + n == i * n) by (nonlinear_arith)
                requires i >= 1,
                ;
        }
    }
    proof {
        assert(cells@.len() == n * n);
        assert(n * n == size * size);
    }
    Ok(cells)
}

/// Row-major grid coordinates are unique: two different indices of a
/// generated population never share `(row, col)`.
pub proof fn lemma_generated_unique(cells: Seq<GridCell>, size: int)
    requires
        0 <= size,
        cells.len() == size * size,
        forall|i: int, j: int| 0 <= i < size && 0 <= j < size
            ==> (#[trigger] cells[i * size + j]).row == i && cells[i * size + j].col == j,
    ensures
        unique_coords(cells),
{
    assert forall|a: int, b: int|
        0 <= a < cells.len() && 0 <= b < cells.len() && a != b
        implies !(#[trigger] cells[a]).same_cell(#[trigger] cells[b]) by {
        let ar = a / size;
        let ac = a % size;
        let br = b / size;
        let bc = b % size;
        assert(0 <= ar < size && 0 <= ac < size && a == ar * size + ac) by (nonlinear_arith)
            requires 0 <= a < size * size, size > 0, ar == a / size, ac == a % size,
            ;
        assert(0 <= br < size && 0 <= bc < size && b == br * size + bc) by (nonlinear_arith)
            requires 0 <= b < size * size, size > 0, br == b / size, bc == b % size,
            ;
        assert(cells[ar * size + ac].row == ar && cells[ar * size + ac].col == ac);
        assert(cells[br * size + bc].row == br && cells[br * size + bc].col == bc);
        if cells[a].same_cell(cells[b]) {
            assert(ar == br && ac == bc);
            assert(a == b);
        }
    }
}

} // verus!
