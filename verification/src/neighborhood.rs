//! The neighborhood index: for any cell of a population, its up-to-four
//! axis-aligned neighbors within the same population. A missing link means
//! "no neighbor in that direction" (an edge of the map). The index is
//! rebuilt whenever a population changes; both the terrain and the water
//! population use the same rebuild routine.

use vstd::prelude::*;

use crate::grid::GridCell;

verus! {

/// Adjacency links of one cell, as indices into its population.
/// `left`/`right` differ by -1/+1 row at equal column; `front`/`back`
/// differ by -1/+1 column at equal row. `None` is an edge of the map.
#[derive(Clone, Copy, Debug)]
pub struct Neighborhood {
    pub left_neighbor: Option<usize>,
    pub right_neighbor: Option<usize>,
    pub front_neighbor: Option<usize>,
    pub back_neighbor: Option<usize>,
}

/// True when cell `j` of `cells` sits at `(row + dr, col + dc)` of cell `i`.
pub open spec fn coords_offset(cells: Seq<GridCell>, i: int, j: int, dr: int, dc: int) -> bool {
    &&& 0 <= j < cells.len()
    &&& cells[j].row == cells[i].row + dr
    &&& cells[j].col == cells[i].col + dc
}

/// What one link of a correct neighborhood says: it points at a cell with
/// the offset coordinates, and it is absent only when no such cell exists.
pub open spec fn link_ok(cells: Seq<GridCell>, i: int, link: Option<usize>, dr: int, dc: int) -> bool {
    match link {
        Some(j) => coords_offset(cells, i, j as int, dr, dc),
        None => forall|j: int| 0 <= j < cells.len() ==> !coords_offset(cells, i, j, dr, dc),
    }
}

/// A correct neighborhood for cell `i`: all four links are correct.
pub open spec fn hood_ok(cells: Seq<GridCell>, i: int, h: Neighborhood) -> bool {
    &&& link_ok(cells, i, h.left_neighbor, -1, 0)
    &&& link_ok(cells, i, h.right_neighbor, 1, 0)
    &&& link_ok(cells, i, h.front_neighbor, 0, -1)
    &&& link_ok(cells, i, h.back_neighbor, 0, 1)
}

/// A correct neighborhood index for a whole population.
pub open spec fn hoods_ok(cells: Seq<GridCell>, hoods: Seq<Neighborhood>) -> bool {
    &&& hoods.len() == cells.len()
    &&& forall|i: int| 0 <= i < cells.len() ==> hood_ok(cells, i, #[trigger] hoods[i])
}

/// No two cells of a population share coordinates. Duplicate coordinates
/// are a map-generation fault and never occur in a well-formed population.
pub open spec fn unique_coords(cells: Seq<GridCell>) -> bool {
    forall|i: int, j: int|
        0 <= i < cells.len() && 0 <= j < cells.len() && i != j
            ==> !(#[trigger] cells[i]).same_cell(#[trigger] cells[j])
}

impl Neighborhood {
    /// The four links in fixed order: left, right, front, back.
    pub fn get_neighbors(&self) -> (r: Vec<Option<usize>>)
        ensures
            r@ == seq![
                self.left_neighbor,
                self.right_neighbor,
                self.front_neighbor,
                self.back_neighbor,
            ],
    {
        let mut r: Vec<Option<usize>> = Vec::new();
        r.push(self.left_neighbor);
        r.push(self.right_neighbor);
        r.push(self.front_neighbor);
        r.push(self.back_neighbor);
        proof {
            assert(r@ =~= seq![
                self.left_neighbor,
                self.right_neighbor,
                self.front_neighbor,
                self.back_neighbor,
            ]);
        }
        r
    }
}

impl Default for Neighborhood {
    /// A fresh neighborhood has no links: every direction is a map edge
    /// until the index is rebuilt.
    fn default() -> (r: Neighborhood)
        ensures
            r.left_neighbor is None,
            r.right_neighbor is None,
            r.front_neighbor is None,
            r.back_neighbor is None,
    {
        Neighborhood {
            left_neighbor: None,
            right_neighbor: None,
            front_neighbor: None,
            back_neighbor: None,
        }
    }
}

/// Builds the neighborhood index of one population by a full pairwise scan,
/// matching `row +- 1` at equal column and `col +- 1` at equal row.
pub fn connect_grid_cells(cells: &Vec<GridCell>) -> (hoods: Vec<Neighborhood>)
    ensures
        hoods_ok(cells@, hoods@),
{
    let n = cells.len();
    let mut hoods: Vec<Neighborhood> = Vec::new();
    let mut i: usize = 0;
    while i < n
        invariant
            n == cells@.len(),
            hoods@.len() == i,
            i <= n,
            forall|k: int| 0 <= k < i ==> hood_ok(cells@, k, #[trigger] hoods@[k]),
        decreases n - i,
    {
        let mut h = Neighborhood::default();
        let row = cells[i].row as i64;
        let col = cells[i].col as i64;
        let mut j: usize = 0;
        while j < n
            invariant
                n == cells@.len(),
                i < n,
                row == cells@[i as int].row,
                col == cells@[i as int].col,
                j <= n,
                h.left_neighbor matches Some(l) ==> coords_offset(cells@, i as int, l as int, -1, 0),
                h.left_neighbor is None
                    ==> forall|k: int| 0 <= k < j ==> !#[trigger] coords_offset(cells@, i as int, k, -1, 0),
                h.right_neighbor matches Some(l) ==> coords_offset(cells@, i as int, l as int, 1, 0),
                h.right_neighbor is None
                    ==> forall|k: int| 0 <= k < j ==> !#[trigger] coords_offset(cells@, i as int, k, 1, 0),
                h.front_neighbor matches Some(l) ==> coords_offset(cells@, i as int, l as int, 0, -1),
                h.front_neighbor is None
                    ==> forall|k: int| 0 <= k < j ==> !#[trigger] coords_offset(cells@, i as int, k, 0, -1),
                h.back_neighbor matches Some(l) ==> coords_offset(cells@, i as int, l as int, 0, 1),
                h.back_neighbor is None
                    ==> forall|k: int| 0 <= k < j ==> !#[trigger] coords_offset(cells@, i as int, k, 0, 1),
            decreases n - j,
        {
            let nrow = cells[j].row as i64;
            let ncol = cells[j].col as i64;
            if nrow == row - 1 && ncol == col {
                h.left_neighbor = Some(j);
            }
            if nrow == row + 1 && ncol == col {
                h.right_neighbor = Some(j);
            }
            if ncol == col - 1 && nrow == row {
                h.front_neighbor = Some(j);
            }
            if ncol == col + 1 && nrow == row {
                h.back_neighbor = Some(j);
            }
            j = j + 1;
        }
        hoods.push(h);
        i = i + 1;
    }
    hoods
}

/// Whether `j` is one of the four links of `h`.
pub open spec fn is_link(h: Neighborhood, j: usize) -> bool {
    ||| h.left_neighbor == Some(j)
    ||| h.right_neighbor == Some(j)
    ||| h.front_neighbor == Some(j)
    ||| h.back_neighbor == Some(j)
}

/// Two cells of a population are adjacent when their coordinates differ by
/// one step along exactly one axis.
pub open spec fn adjacent(cells: Seq<GridCell>, i: int, j: int) -> bool {
    ||| coords_offset(cells, i, j, -1, 0)
    ||| coords_offset(cells, i, j, 1, 0)
    ||| coords_offset(cells, i, j, 0, -1)
    ||| coords_offset(cells, i, j, 0, 1)
}

/// Adjacency is a symmetric relation.
pub proof fn lemma_adjacent_symmetric(cells: Seq<GridCell>, i: int, j: int)
    requires
        0 <= i < cells.len(),
        adjacent(cells, i, j),
    ensures
        adjacent(cells, j, i),
{
}

/// With unique coordinates, a correct neighborhood index lists every
/// adjacent cell: an adjacent cell is always one of the four links.
pub proof fn lemma_adjacent_is_link(cells: Seq<GridCell>, hoods: Seq<Neighborhood>, i: int, j: int)
    requires
        hoods_ok(cells, hoods),
        unique_coords(cells),
        0 <= i < cells.len(),
        adjacent(cells, i, j),
    ensures
        is_link(hoods[i], (j as usize)),
        j < cells.len(),
        0 <= j,
        j != i,
{
    let h = hoods[i];
    assert(hood_ok(cells, i, h));
    if coords_offset(cells, i, j, -1, 0) {
        match h.left_neighbor {
            Some(k) => {
                assert(coords_offset(cells, i, k as int, -1, 0));
                assert(cells[k as int].same_cell(cells[j]));
                assert(k as int == j);
            },
            None => {
                assert(!coords_offset(cells, i, j, -1, 0));
            },
        }
    } else if coords_offset(cells, i, j, 1, 0) {
        match h.right_neighbor {
            Some(k) => {
                assert(coords_offset(cells, i, k as int, 1, 0));
                assert(cells[k as int].same_cell(cells[j]));
                assert(k as int == j);
            },
            None => {
                assert(!coords_offset(cells, i, j, 1, 0));
            },
        }
    } else if coords_offset(cells, i, j, 0, -1) {
        match h.front_neighbor {
            Some(k) => {
                assert(coords_offset(cells, i, k as int, 0, -1));
                assert(cells[k as int].same_cell(cells[j]));
                assert(k as int == j);
            },
            None => {
                assert(!coords_offset(cells, i, j, 0, -1));
            },
        }
    } else {
        match h.back_neighbor {
            Some(k) => {
                assert(coords_offset(cells, i, k as int, 0, 1));
                assert(cells[k as int].same_cell(cells[j]));
                assert(k as int == j);
            },
            None => {
                assert(!coords_offset(cells, i, j, 0, 1));
            },
        }
    }
}

/// Every link of a correct neighborhood index points at an adjacent cell.
pub proof fn lemma_link_is_adjacent(cells: Seq<GridCell>, hoods: Seq<Neighborhood>, i: int, j: usize)
    requires
        hoods_ok(cells, hoods),
        0 <= i < cells.len(),
        is_link(hoods[i], j),
    ensures
        adjacent(cells, i, j as int),
        (j as int) < cells.len(),
        (j as int) != i,
{
}

/// Coordinate-only facts transfer between populations that agree on all
/// rows and columns (heights may differ).
pub proof fn lemma_unique_coords_same(c1: Seq<GridCell>, c2: Seq<GridCell>)
    requires
        c1.len() == c2.len(),
        forall|k: int| 0 <= k < c1.len()
            ==> (#[trigger] c2[k]).row == c1[k].row && c2[k].col == c1[k].col,
        unique_coords(c1),
    ensures
        unique_coords(c2),
{
    assert forall|i: int, j: int|
        0 <= i < c2.len() && 0 <= j < c2.len() && i != j
        implies !(#[trigger] c2[i]).same_cell(#[trigger] c2[j]) by {
        assert(!c1[i].same_cell(c1[j]));
    }
}

/// A correct neighborhood index stays correct for a population that
/// agrees on all rows and columns (heights may differ).
pub proof fn lemma_hoods_ok_same(c1: Seq<GridCell>, c2: Seq<GridCell>, hoods: Seq<Neighborhood>)
    requires
        c1.len() == c2.len(),
        forall|k: int| 0 <= k < c1.len()
            ==> (#[trigger] c2[k]).row == c1[k].row && c2[k].col == c1[k].col,
        hoods_ok(c1, hoods),
    ensures
        hoods_ok(c2, hoods),
{
    assert forall|i: int| 0 <= i < c2.len() implies hood_ok(c2, i, #[trigger] hoods[i]) by {
        assert(hood_ok(c1, i, hoods[i]));
        let h = hoods[i];
        if h.left_neighbor is None {
            assert forall|j: int| 0 <= j < c2.len()
                implies !#[trigger] coords_offset(c2, i, j, -1, 0) by {
                assert(!coords_offset(c1, i, j, -1, 0));
            }
        }
        if h.right_neighbor is None {
            assert forall|j: int| 0 <= j < c2.len()
                implies !#[trigger] coords_offset(c2, i, j, 1, 0) by {
                assert(!coords_offset(c1, i, j, 1, 0));
            }
        }
        if h.front_neighbor is None {
            assert forall|j: int| 0 <= j < c2.len()
                implies !#[trigger] coords_offset(c2, i, j, 0, -1) by {
                assert(!coords_offset(c1, i, j, 0, -1));
            }
        }
        if h.back_neighbor is None {
            assert forall|j: int| 0 <= j < c2.len()
                implies !#[trigger] coords_offset(c2, i, j, 0, 1) by {
                assert(!coords_offset(c1, i, j, 0, 1));
            }
        }
    }
}

/// Neighborhood references are symmetric: when coordinates are unique and
/// cell `i` lists `j` as its right neighbor, cell `j` lists `i` as its left
/// neighbor (and likewise for the other direction pairs).
pub proof fn lemma_neighborhood_symmetric(cells: Seq<GridCell>, hoods: Seq<Neighborhood>, i: usize, j: usize)
    requires
        hoods_ok(cells, hoods),
        unique_coords(cells),
        i < cells.len(),
        j < cells.len(),
    ensures
        hoods[i as int].right_neighbor == Some(j) ==> hoods[j as int].left_neighbor == Some(i),
        hoods[i as int].left_neighbor == Some(j) ==> hoods[j as int].right_neighbor == Some(i),
        hoods[i as int].back_neighbor == Some(j) ==> hoods[j as int].front_neighbor == Some(i),
        hoods[i as int].front_neighbor == Some(j) ==> hoods[j as int].back_neighbor == Some(i),
{
    if hoods[i as int].right_neighbor == Some(j) {
        assert(coords_offset(cells, i as int, j as int, 1, 0));
        assert(coords_offset(cells, j as int, i as int, -1, 0));
        match hoods[j as int].left_neighbor {
            Some(k) => {
                assert(coords_offset(cells, j as int, k as int, -1, 0));
                assert(cells[k as int].same_cell(cells[i as int]));
                assert(k == i);
            },
            None => {
                assert(!coords_offset(cells, j as int, i as int, -1, 0));
            },
        }
    }
    if hoods[i as int].left_neighbor == Some(j) {
        assert(coords_offset(cells, i as int, j as int, -1, 0));
        assert(coords_offset(cells, j as int, i as int, 1, 0));
        match hoods[j as int].right_neighbor {
            Some(k) => {
                assert(coords_offset(cells, j as int, k as int, 1, 0));
                assert(cells[k as int].same_cell(cells[i as int]));
                assert(k == i);
            },
            None => {
                assert(!coords_offset(cells, j as int, i as int, 1, 0));
            },
        }
    }
    if hoods[i as int].back_neighbor == Some(j) {
        assert(coords_offset(cells, i as int, j as int, 0, 1));
        assert(coords_offset(cells, j as int, i as int, 0, -1));
        match hoods[j as int].front_neighbor {
            Some(k) => {
                assert(coords_offset(cells, j as int, k as int, 0, -1));
                assert(cells[k as int].same_cell(cells[i as int]));
                assert(k == i);
            },
            None => {
                assert(!coords_offset(cells, j as int, i as int, 0, -1));
            },
        }
    }
    if hoods[i as int].front_neighbor == Some(j) {
        assert(coords_offset(cells, i as int, j as int, 0, -1));
        assert(coords_offset(cells, j as int, i as int, 0, 1));
        match hoods[j as int].back_neighbor {
            Some(k) => {
                assert(coords_offset(cells, j as int, k as int, 0, 1));
                assert(cells[k as int].same_cell(cells[i as int]));
                assert(k == i);
            },
            None => {
                assert(!coords_offset(cells, j as int, i as int, 0, 1));
            },
        }
    }
}

} // verus!
