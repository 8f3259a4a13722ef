//! The shift engine: a per-cell state machine that animates a terrain
//! cell's rendered height toward its target height and, on completion,
//! decides whether neighbors must also move so that the maximum-slope rule
//! is restored.
//!
//! A cell is Idle (no `Shifting` marker, rendered height equals its target
//! layer) or Shifting (marker present, rendered height moves toward the
//! target at a constant rate, clamped so it never overshoots). Completion
//! emits a `ShiftFinished` notification; the cascade pass answers each
//! notification by pushing any too-distant neighbor one slope step in the
//! same direction.

use vstd::prelude::*;

use crate::grid::{GridCell, CELL_HEIGHT, HEIGHT_LIMIT};
use crate::neighborhood::{Neighborhood, hoods_ok, adjacent, is_link};

verus! {

/// Transient marker attached to a cell while its rendered height animates;
/// `up` is the direction fixed when the shift was requested.
#[derive(Clone, Copy, Debug)]
pub struct Shifting {
    pub up: bool,
}

/// One terrain unit: its grid cell (whose `layer` is the target height),
/// the height currently rendered, and the animation marker if one is live.
#[derive(Clone, Copy, Debug)]
pub struct GroundCell {
    pub cell: GridCell,
    pub rendered: i64,
    pub shifting: Option<Shifting>,
}

/// Notification that a cell's rendered height reached its target.
#[derive(Clone, Copy, Debug)]
pub struct ShiftFinished {
    pub index: usize,
    pub up: bool,
    pub layer: i64,
}

/// The coordinates of a terrain population, as plain grid cells.
pub open spec fn ground_view(grounds: Seq<GroundCell>) -> Seq<GridCell> {
    Seq::new(grounds.len(), |i: int| grounds[i].cell)
}

/// Every stored height is within the engine's height bound.
pub open spec fn heights_bounded(grounds: Seq<GroundCell>) -> bool {
    forall|k: int| 0 <= k < grounds.len() ==> {
        &&& -HEIGHT_LIMIT <= (#[trigger] grounds[k]).cell.layer <= HEIGHT_LIMIT
        &&& -HEIGHT_LIMIT <= grounds[k].rendered <= HEIGHT_LIMIT
    }
}

/// A settled population: nothing is animating and every rendered height
/// equals its target layer.
pub open spec fn settled(grounds: Seq<GroundCell>) -> bool {
    forall|k: int| 0 <= k < grounds.len() ==> {
        &&& (#[trigger] grounds[k]).shifting is None
        &&& grounds[k].rendered == grounds[k].cell.layer
    }
}

/// The maximum-slope invariant: no two adjacent cells differ in target
/// height by more than one slope step.
pub open spec fn valid_slope(grounds: Seq<GroundCell>) -> bool {
    forall|i: int, j: int|
        0 <= i < grounds.len() && 0 <= j < grounds.len()
            && #[trigger] adjacent(ground_view(grounds), i, j)
            ==> grounds[i].cell.layer - grounds[j].cell.layer <= CELL_HEIGHT
}

/// The marker direction of a shifting cell (`false` when idle).
pub open spec fn marker_up(c: GroundCell) -> bool {
    match c.shifting {
        Some(s) => s.up,
        None => false,
    }
}

/// Requests a shift of the selected cell by one grid step up or down: the
/// target layer moves by `CELL_HEIGHT` and the animation marker is
/// attached with the matching direction. An edit arriving mid-animation
/// overwrites the direction immediately.
pub fn shift_selected_cell(grounds: &mut Vec<GroundCell>, index: usize, up: bool)
    requires
        index < old(grounds)@.len(),
        -HEIGHT_LIMIT <= old(grounds)@[index as int].cell.layer + (if up { CELL_HEIGHT as int } else { -CELL_HEIGHT as int }) <= HEIGHT_LIMIT,
    ensures
        final(grounds)@.len() == old(grounds)@.len(),
        final(grounds)@[index as int].cell.row == old(grounds)@[index as int].cell.row,
        final(grounds)@[index as int].cell.col == old(grounds)@[index as int].cell.col,
        final(grounds)@[index as int].cell.layer == old(grounds)@[index as int].cell.layer
            + (if up { CELL_HEIGHT as int } else { -CELL_HEIGHT as int }),
        final(grounds)@[index as int].rendered == old(grounds)@[index as int].rendered,
        final(grounds)@[index as int].shifting == Some(Shifting { up }),
        forall|k: int| 0 <= k < final(grounds)@.len() && k != index ==> final(grounds)@[k] == old(grounds)@[k],
{
    let c = grounds[index];
    let layer = if up { c.cell.layer + CELL_HEIGHT } else { c.cell.layer - CELL_HEIGHT };
    let updated = GroundCell {
        cell: GridCell { row: c.cell.row, col: c.cell.col, layer },
        rendered: c.rendered,
        shifting: Some(Shifting { up }),
    };
    grounds.set(index, updated);
}

/// What one animation tick does to one cell: a shifting cell's rendered
/// height moves toward its target by at most `delta`, clamped so it cannot
/// cross the target; on exact arrival the marker is removed.
pub open spec fn advanced_cell(c: GroundCell, delta: i64) -> GroundCell {
    if c.shifting is None {
        c
    } else {
        let target = c.cell.layer;
        let moved: int = if c.rendered < target {
            if target - c.rendered <= delta { target as int } else { c.rendered + delta }
        } else if c.rendered > target {
            if c.rendered - target <= delta { target as int } else { c.rendered - delta }
        } else {
            target as int
        };
        GroundCell {
            cell: c.cell,
            rendered: moved as i64,
            shifting: if moved == target { None } else { c.shifting },
        }
    }
}

/// Whether one animation tick of size `delta` finishes the cell.
pub open spec fn cell_finishes(c: GroundCell, delta: i64) -> bool {
    &&& c.shifting is Some
    &&& -delta <= c.cell.layer - c.rendered <= delta
}

/// The completion notification of cell `i`.
pub open spec fn finish_event(i: int, c: GroundCell) -> ShiftFinished {
    ShiftFinished { index: i as usize, up: marker_up(c), layer: c.cell.layer }
}

/// The completion notifications that one animation tick of size `delta`
/// emits, in cell-index order.
pub open spec fn step_events(cells: Seq<GroundCell>, delta: i64) -> Seq<ShiftFinished>
    decreases cells.len(),
{
    if cells.len() == 0 {
        Seq::empty()
    } else {
        step_events(cells.drop_last(), delta)
            + if cell_finishes(cells.last(), delta) {
                seq![finish_event(cells.len() - 1, cells.last())]
            } else {
                Seq::empty()
            }
    }
}

/// One animation pass: advances every shifting cell's rendered height by
/// `delta` toward its target (clamped), removes the marker of every cell
/// that arrives, and returns the completion notifications in index order.
pub fn shift_cells(grounds: &mut Vec<GroundCell>, delta: i64) -> (events: Vec<ShiftFinished>)
    requires
        delta >= 0,
        heights_bounded(old(grounds)@),
    ensures
        final(grounds)@.len() == old(grounds)@.len(),
        forall|k: int| 0 <= k < final(grounds)@.len()
            ==> final(grounds)@[k] == advanced_cell(#[trigger] old(grounds)@[k], delta),
        events@ == step_events(old(grounds)@, delta),
        heights_bounded(final(grounds)@),
{
    let ghost g0 = grounds@;
    let n = grounds.len();
    let mut events: Vec<ShiftFinished> = Vec::new();
    let mut i: usize = 0;
    while i < n
        invariant
            n == g0.len(),
            grounds@.len() == g0.len(),
            delta >= 0,
            heights_bounded(g0),
            i <= n,
            forall|k: int| i <= k < n ==> grounds@[k] == g0[k],
            forall|k: int| 0 <= k < i ==> grounds@[k] == advanced_cell(#[trigger] g0[k], delta),
            heights_bounded(grounds@),
            events@ == step_events(g0.take(i as int), delta),
        decreases n - i,
    {
        let c = grounds[i];
        if c.shifting.is_some() {
            let target = c.cell.layer;
            let mut moved = c.rendered;
            if moved < target {
                let room = target - moved;
                if room <= delta {
                    moved = target;
                } else {
                    moved = moved + delta;
                }
            } else if moved > target {
                let room = moved - target;
                if room <= delta {
                    moved = target;
                } else {
                    moved = moved - delta;
                }
            }
            if moved == target {
                let up = match c.shifting {
                    Some(s) => s.up,
                    None => false,
                };
                events.push(ShiftFinished { index: i, up, layer: target });
                grounds.set(i, GroundCell { cell: c.cell, rendered: moved, shifting: None });
            } else {
                grounds.set(i, GroundCell { cell: c.cell, rendered: moved, shifting: c.shifting });
            }
        }
        proof {
            assert(g0.take(i + 1 as int).drop_last() =~= g0.take(i as int));
            assert(g0.take(i + 1 as int).last() == g0[i as int]);
            assert(grounds@[i as int] == advanced_cell(g0[i as int], delta));
            assert(events@ =~= step_events(g0.take(i + 1 as int), delta));
        }
        i = i + 1;
    }
    proof {
        assert(g0.take(n as int) =~= g0);
    }
    events
}

/// What the cascade rule does to one neighbor of a finished cell whose
/// final height is `layer`: a too-low neighbor of an upward shift is
/// raised by exactly one slope step and set shifting up; a too-high
/// neighbor of a downward shift is lowered one step and set shifting
/// down; otherwise the neighbor is left alone.
pub open spec fn cascaded_cell(c: GroundCell, up: bool, layer: int) -> GroundCell {
    if up && layer - c.cell.layer > CELL_HEIGHT {
        GroundCell {
            cell: GridCell { row: c.cell.row, col: c.cell.col, layer: (c.cell.layer + CELL_HEIGHT) as i64 },
            rendered: c.rendered,
            shifting: Some(Shifting { up: true }),
        }
    } else if !up && layer - c.cell.layer < -CELL_HEIGHT {
        GroundCell {
            cell: GridCell { row: c.cell.row, col: c.cell.col, layer: (c.cell.layer - CELL_HEIGHT) as i64 },
            rendered: c.rendered,
            shifting: Some(Shifting { up: false }),
        }
    } else {
        c
    }
}

/// One cascade step, applied once per `ShiftFinished` notification: scans
/// the four neighbors of the finished cell and applies the cascade rule to
/// each. Cells that are not neighbors of the finished cell are untouched.
pub fn shift_neighbors(grounds: &mut Vec<GroundCell>, hoods: &Vec<Neighborhood>, shift: &ShiftFinished)
    requires
        hoods_ok(ground_view(old(grounds)@), hoods@),
        (shift.index as int) < old(grounds)@.len(),
        -HEIGHT_LIMIT <= shift.layer <= HEIGHT_LIMIT,
        heights_bounded(old(grounds)@),
    ensures
        final(grounds)@.len() == old(grounds)@.len(),
        forall|k: int| 0 <= k < final(grounds)@.len() ==> #[trigger] final(grounds)@[k] == if is_link(hoods@[shift.index as int], k as usize) {
            cascaded_cell(old(grounds)@[k], shift.up, shift.layer as int)
        } else {
            old(grounds)@[k]
        },
{
    let n = grounds.len();
    let ghost g0 = grounds@;
    let ghost cells = ground_view(g0);
    let ghost i = shift.index as int;
    let h = hoods[shift.index];
    proof {
        assert(hoods@[i] == h);
        lemma_links_distinct(cells, i, h);
    }
    cascade_one(grounds, h.left_neighbor, shift.up, shift.layer);
    let ghost g1 = grounds@;
    cascade_one(grounds, h.right_neighbor, shift.up, shift.layer);
    let ghost g2 = grounds@;
    cascade_one(grounds, h.front_neighbor, shift.up, shift.layer);
    let ghost g3 = grounds@;
    cascade_one(grounds, h.back_neighbor, shift.up, shift.layer);
    proof {
        assert forall|k: int| 0 <= k < grounds@.len() implies #[trigger] grounds@[k] == (if is_link(h, k as usize) {
            cascaded_cell(g0[k], shift.up, shift.layer as int)
        } else {
            g0[k]
        }) by {
            let ku = k as usize;
            assert(0 <= k < n);
            if h.left_neighbor == Some(ku) {
                assert(g1[k] == cascaded_cell(g0[k], shift.up, shift.layer as int));
                assert(g2[k] == g1[k]);
                assert(g3[k] == g2[k]);
                assert(grounds@[k] == g3[k]);
            } else if h.right_neighbor == Some(ku) {
                assert(g1[k] == g0[k]);
                assert(g2[k] == cascaded_cell(g1[k], shift.up, shift.layer as int));
                assert(g3[k] == g2[k]);
                assert(grounds@[k] == g3[k]);
            } else if h.front_neighbor == Some(ku) {
                assert(g1[k] == g0[k]);
                assert(g2[k] == g1[k]);
                assert(g3[k] == cascaded_cell(g2[k], shift.up, shift.layer as int));
                assert(grounds@[k] == g3[k]);
            } else if h.back_neighbor == Some(ku) {
                assert(g1[k] == g0[k]);
                assert(g2[k] == g1[k]);
                assert(g3[k] == g2[k]);
                assert(grounds@[k] == cascaded_cell(g3[k], shift.up, shift.layer as int));
            } else {
                assert(!is_link(h, ku));
                assert(g1[k] == g0[k]);
                assert(g2[k] == g1[k]);
                assert(g3[k] == g2[k]);
                assert(grounds@[k] == g3[k]);
            }
        }
    }
}

/// The four links of a correct neighborhood point at pairwise different
/// cells: their coordinate offsets differ.
proof fn lemma_links_distinct(cells: Seq<GridCell>, i: int, h: Neighborhood)
    requires
        0 <= i < cells.len(),
        crate::neighborhood::hood_ok(cells, i, h),
    ensures
        h.left_neighbor matches Some(a) ==> (a as int) < cells.len()
            && h.right_neighbor != Some(a) && h.front_neighbor != Some(a) && h.back_neighbor != Some(a),
        h.right_neighbor matches Some(a) ==> (a as int) < cells.len()
            && h.left_neighbor != Some(a) && h.front_neighbor != Some(a) && h.back_neighbor != Some(a),
        h.front_neighbor matches Some(a) ==> (a as int) < cells.len()
            && h.left_neighbor != Some(a) && h.right_neighbor != Some(a) && h.back_neighbor != Some(a),
        h.back_neighbor matches Some(a) ==> (a as int) < cells.len()
            && h.left_neighbor != Some(a) && h.right_neighbor != Some(a) && h.front_neighbor != Some(a),
{
}

/// Applies the cascade rule to the single neighbor `link`, if present.
fn cascade_one(grounds: &mut Vec<GroundCell>, link: Option<usize>, up: bool, layer: i64)
    requires
        -HEIGHT_LIMIT <= layer <= HEIGHT_LIMIT,
        heights_bounded(old(grounds)@),
        link matches Some(j) ==> (j as int) < old(grounds)@.len(),
    ensures
        final(grounds)@.len() == old(grounds)@.len(),
        match link {
            Some(j) => final(grounds)@ == old(grounds)@.update(j as int, cascaded_cell(old(grounds)@[j as int], up, layer as int)),
            None => final(grounds)@ == old(grounds)@,
        },
        heights_bounded(final(grounds)@),
{
    if let Some(j) = link {
        let c = grounds[j];
        let separation = layer - c.cell.layer;
        if up && separation > CELL_HEIGHT {
            grounds.set(j, GroundCell {
                cell: GridCell { row: c.cell.row, col: c.cell.col, layer: c.cell.layer + CELL_HEIGHT },
                rendered: c.rendered,
                shifting: Some(Shifting { up: true }),
            });
        } else if !up && separation < -CELL_HEIGHT {
            grounds.set(j, GroundCell {
                cell: GridCell { row: c.cell.row, col: c.cell.col, layer: c.cell.layer - CELL_HEIGHT },
                rendered: c.rendered,
                shifting: Some(Shifting { up: false }),
            });
        } else {
            proof {
                assert(grounds@ =~= old(grounds)@.update(j as int, cascaded_cell(old(grounds)@[j as int], up, layer as int)));
            }
        }
    }
}


/// The signed height step of a cascade in direction `up`.
pub open spec fn dir_step(up: bool) -> int {
    if up { CELL_HEIGHT as int } else { -(CELL_HEIGHT as int) }
}

/// Height separation normalized by direction: positive when `a` drives a
/// cascade toward `b` (for an upward cascade, when `a` is above `b`; for a
/// downward one, when `a` is below `b`).
pub open spec fn dir_sep(up: bool, a: int, b: int) -> int {
    if up { a - b } else { b - a }
}

/// How far a cell's target may still travel in direction `up` before the
/// height bound: the potential that every cascade step consumes.
pub open spec fn cell_deficit(c: GroundCell, up: bool) -> int {
    if up { HEIGHT_LIMIT - c.cell.layer } else { c.cell.layer + HEIGHT_LIMIT }
}

/// Total remaining travel of a population in direction `up`.
pub open spec fn layer_deficit(g: Seq<GroundCell>, up: bool) -> int
    decreases g.len(),
{
    if g.len() == 0 {
        0
    } else {
        layer_deficit(g.drop_last(), up) + cell_deficit(g.last(), up)
    }
}

proof fn lemma_deficit_nonneg(g: Seq<GroundCell>, up: bool)
    requires
        heights_bounded(g),
    ensures
        layer_deficit(g, up) >= 0,
    decreases g.len(),
{
    if g.len() > 0 {
        assert(heights_bounded(g.drop_last())) by {
            assert(forall|k: int| 0 <= k < g.len() - 1 ==> g.drop_last()[k] == g[k]);
        }
        lemma_deficit_nonneg(g.drop_last(), up);
    }
}

proof fn lemma_deficit_update(g: Seq<GroundCell>, k: int, c: GroundCell, up: bool)
    requires
        0 <= k < g.len(),
    ensures
        layer_deficit(g.update(k, c), up)
            == layer_deficit(g, up) + cell_deficit(c, up) - cell_deficit(g[k], up),
    decreases g.len(),
{
    let g2 = g.update(k, c);
    if k == g.len() - 1 {
        assert(g2.drop_last() =~= g.drop_last());
        assert(g2.last() == c);
    } else {
        assert(g2.drop_last() =~= g.drop_last().update(k, c));
        assert(g2.last() == g.last());
        lemma_deficit_update(g.drop_last(), k, c, up);
    }
}

/// The loop measure of the cascade: one slope step per queued completion,
/// plus twice the remaining travel of all targets. Every raise moves one
/// target a full step toward the bound, so each processed completion
/// strictly shrinks this quantity.
pub open spec fn settle_measure(g: Seq<GroundCell>, q: Seq<usize>, up: bool) -> int {
    (CELL_HEIGHT as int) * q.len() + 2 * layer_deficit(g, up)
}

/// State invariant of a settling cascade that began by setting cell `s`'s
/// target to `target` (a move in direction `up`) on the settled, valid
/// population `h0`.
pub open spec fn cascade_state_inv(
    h0: Seq<GroundCell>,
    g: Seq<GroundCell>,
    q: Seq<usize>,
    s: int,
    target: int,
    up: bool,
) -> bool {
    &&& g.len() == h0.len()
    &&& g.len() <= usize::MAX
    &&& 0 <= s < g.len()
    &&& -HEIGHT_LIMIT <= target <= HEIGHT_LIMIT
    &&& dir_sep(up, target, h0[s].cell.layer as int) > 0
    &&& forall|k: int| 0 <= k < g.len()
        ==> (#[trigger] g[k]).cell.row == h0[k].cell.row && g[k].cell.col == h0[k].cell.col
    &&& g[s].cell.layer == target
    &&& forall|k: int| 0 <= k < g.len() && k != s
        ==> (#[trigger] g[k]).cell.layer == h0[k].cell.layer
            || g[k].cell.layer == h0[k].cell.layer + dir_step(up)
    &&& forall|k: int| 0 <= k < g.len() && k != s
            && (#[trigger] g[k]).cell.layer != h0[k].cell.layer
        ==> dir_sep(up, target, h0[k].cell.layer + dir_step(up)) > 0
    &&& q.no_duplicates()
    &&& forall|t: int| 0 <= t < q.len() ==> (#[trigger] q[t] as int) < g.len()
    &&& forall|k: int| 0 <= k < g.len()
        ==> ((#[trigger] g[k]).shifting is Some <==> q.contains(k as usize))
    &&& forall|k: int| 0 <= k < g.len() && (#[trigger] g[k]).shifting is Some
        ==> g[k].shifting == Some(Shifting { up })
    &&& forall|k: int| 0 <= k < g.len() && k != s && q.contains(k as usize)
        ==> (#[trigger] g[k]).cell.layer != h0[k].cell.layer
    &&& q.contains(s as usize)
        ==> q.len() == 1 && (forall|k: int| 0 <= k < g.len() && k != s
                ==> (#[trigger] g[k]).cell.layer == h0[k].cell.layer)
    &&& forall|k: int| 0 <= k < g.len() && (#[trigger] g[k]).shifting is None
        ==> g[k].rendered == g[k].cell.layer
    &&& heights_bounded(g)
}

/// Obligation tracking of a settling cascade: every adjacent pair still
/// violating the slope bound has its driving cell queued (the edited cell
/// `s` and a cell `ex` currently being processed are exempt), and once `s`
/// has been processed after a one-step edit, its own pairs stay within the
/// bound.
pub open spec fn cascade_pending_inv(
    h0: Seq<GroundCell>,
    g: Seq<GroundCell>,
    q: Seq<usize>,
    s: int,
    target: int,
    up: bool,
    ex: int,
) -> bool {
    &&& forall|a: int, b: int|
        0 <= a < g.len() && 0 <= b < g.len() && #[trigger] adjacent(ground_view(h0), a, b)
            && a != s && a != ex
            && dir_sep(up, g[a].cell.layer as int, g[b].cell.layer as int) > CELL_HEIGHT
        ==> q.contains(a as usize)
    &&& (!q.contains(s as usize) && s != ex && dir_sep(up, target, h0[s].cell.layer as int) <= CELL_HEIGHT)
        ==> forall|b: int|
            0 <= b < g.len() && #[trigger] adjacent(ground_view(h0), s, b)
                ==> dir_sep(up, g[s].cell.layer as int, g[b].cell.layer as int) <= CELL_HEIGHT
}

/// The raised (or lowered) form of a neighbor that the cascade moved one
/// slope step in direction `up`.
pub open spec fn raised_form(c: GroundCell, up: bool) -> GroundCell {
    GroundCell {
        cell: GridCell {
            row: c.cell.row,
            col: c.cell.col,
            layer: (c.cell.layer + dir_step(up)) as i64,
        },
        rendered: c.rendered,
        shifting: Some(Shifting { up }),
    }
}

/// Exactly what one cascade step from a completed cell at height
/// `layer_i` does to population `g` and queue `q`, yielding `g2`, `q2`:
/// nothing, unless the linked neighbor is more than one slope step away in
/// direction `up`, in which case that neighbor moves one step and its own
/// completion is queued.
pub open spec fn settle_one_rel(
    g: Seq<GroundCell>,
    q: Seq<usize>,
    g2: Seq<GroundCell>,
    q2: Seq<usize>,
    link: Option<usize>,
    layer_i: int,
    up: bool,
) -> bool {
    match link {
        None => g2 == g && q2 == q,
        Some(j) => {
            if 0 <= (j as int) < g.len()
                && dir_sep(up, layer_i, g[j as int].cell.layer as int) > CELL_HEIGHT {
                g2 == g.update(j as int, raised_form(g[j as int], up)) && q2 == q.push(j)
            } else {
                g2 == g && q2 == q
            }
        },
    }
}

/// Heights only move in the cascade direction.
pub open spec fn layers_advance(g: Seq<GroundCell>, g2: Seq<GroundCell>, up: bool) -> bool {
    &&& g2.len() == g.len()
    &&& forall|k: int| 0 <= k < g.len()
        ==> dir_sep(up, (#[trigger] g2[k]).cell.layer as int, g[k].cell.layer as int) >= 0
}

proof fn lemma_rel_advance(
    g: Seq<GroundCell>,
    q: Seq<usize>,
    g2: Seq<GroundCell>,
    q2: Seq<usize>,
    link: Option<usize>,
    layer_i: int,
    up: bool,
)
    requires
        settle_one_rel(g, q, g2, q2, link, layer_i, up),
        heights_bounded(g),
    ensures
        layers_advance(g, g2, up),
{
    if let Some(j) = link {
        if 0 <= (j as int) < g.len()
            && dir_sep(up, layer_i, g[j as int].cell.layer as int) > CELL_HEIGHT {
            assert(g2[j as int] == raised_form(g[j as int], up));
            assert forall|k: int| 0 <= k < g.len()
                implies dir_sep(up, (#[trigger] g2[k]).cell.layer as int, g[k].cell.layer as int) >= 0 by {
                if k != j as int {
                    assert(g2[k] == g[k]);
                }
            }
        }
    }
}

/// After a cascade step whose firing separation was within two slope
/// steps, and any further forward movement of the population, the linked
/// neighbor sits within one slope step of the completed cell.
proof fn lemma_one_link_resolved(
    g: Seq<GroundCell>,
    q: Seq<usize>,
    g2: Seq<GroundCell>,
    q2: Seq<usize>,
    g4: Seq<GroundCell>,
    link: Option<usize>,
    layer_i: int,
    up: bool,
)
    requires
        settle_one_rel(g, q, g2, q2, link, layer_i, up),
        heights_bounded(g),
        layers_advance(g2, g4, up),
        link matches Some(j) ==> 0 <= (j as int) < g.len(),
        link matches Some(j)
            && dir_sep(up, layer_i, g[link->0 as int].cell.layer as int) > CELL_HEIGHT
            ==> dir_sep(up, layer_i, g[link->0 as int].cell.layer as int) <= 2 * CELL_HEIGHT,
    ensures
        link matches Some(j) ==> dir_sep(up, layer_i, g4[j as int].cell.layer as int) <= CELL_HEIGHT,
{
    if let Some(j) = link {
        if dir_sep(up, layer_i, g[j as int].cell.layer as int) > CELL_HEIGHT {
            assert(g2[j as int] == raised_form(g[j as int], up));
            assert(dir_sep(up, layer_i, g2[j as int].cell.layer as int) <= CELL_HEIGHT);
        } else {
            assert(g2[j as int] == g[j as int]);
        }
        assert(dir_sep(up, g4[j as int].cell.layer as int, g2[j as int].cell.layer as int) >= 0);
    }
}

/// Instantiates the slope invariant for one adjacent pair, in both
/// directions.
pub proof fn lemma_valid_slope_pair(grounds: Seq<GroundCell>, a: int, b: int)
    requires
        valid_slope(grounds),
        0 <= a < grounds.len(),
        0 <= b < grounds.len(),
        adjacent(ground_view(grounds), a, b),
    ensures
        grounds[a].cell.layer - grounds[b].cell.layer <= CELL_HEIGHT,
        grounds[b].cell.layer - grounds[a].cell.layer <= CELL_HEIGHT,
{
    crate::neighborhood::lemma_adjacent_symmetric(ground_view(grounds), a, b);
    assert(adjacent(ground_view(grounds), b, a));
}

/// Applies the cascade rule from a just-completed cell `i` (final height
/// `layer_i`) to the single neighbor `link`, queueing the neighbor's own
/// completion when it moves.
fn settle_one(
    grounds: &mut Vec<GroundCell>,
    queue: &mut Vec<usize>,
    link: Option<usize>,
    layer_i: i64,
    up: bool,
    Ghost(h0): Ghost<Seq<GroundCell>>,
    Ghost(s): Ghost<int>,
    Ghost(target): Ghost<int>,
    Ghost(i): Ghost<int>,
)
    requires
        cascade_state_inv(h0, old(grounds)@, old(queue)@, s, target, up),
        cascade_pending_inv(h0, old(grounds)@, old(queue)@, s, target, up, i),
        0 <= i < old(grounds)@.len(),
        !old(queue)@.contains(i as usize),
        old(grounds)@[i].shifting is None,
        old(grounds)@[i].cell.layer == layer_i,
        !old(queue)@.contains(s as usize),
        link matches Some(j) ==> 0 <= (j as int) < old(grounds)@.len() && (j as int) != i,
        link matches Some(j)
            && dir_sep(up, layer_i as int, old(grounds)@[j as int].cell.layer as int) > CELL_HEIGHT
            ==> {
                let j = link->0;
                &&& (j as int) != s
                &&& old(grounds)@[j as int].cell.layer == h0[j as int].cell.layer
                &&& old(grounds)@[j as int].shifting is None
                &&& dir_sep(up, target, h0[j as int].cell.layer + dir_step(up)) > 0
            },
    ensures
        cascade_state_inv(h0, final(grounds)@, final(queue)@, s, target, up),
        cascade_pending_inv(h0, final(grounds)@, final(queue)@, s, target, up, i),
        !final(queue)@.contains(s as usize),
        settle_one_rel(old(grounds)@, old(queue)@, final(grounds)@, final(queue)@, link, layer_i as int, up),
        settle_measure(final(grounds)@, final(queue)@, up) <= settle_measure(old(grounds)@, old(queue)@, up),
{
    let glen = grounds.len();
    let ghost g0 = grounds@;
    let ghost q0 = queue@;
    if let Some(j) = link {
        let c = grounds[j];
        let fires = if up {
            layer_i - c.cell.layer > CELL_HEIGHT
        } else {
            layer_i - c.cell.layer < -CELL_HEIGHT
        };
        if fires {
            let new_layer = if up { c.cell.layer + CELL_HEIGHT } else { c.cell.layer - CELL_HEIGHT };
            grounds.set(j, GroundCell {
                cell: GridCell { row: c.cell.row, col: c.cell.col, layer: new_layer },
                rendered: c.rendered,
                shifting: Some(Shifting { up }),
            });
            queue.push(j);
            proof {
                let g1 = grounds@;
                let q1 = queue@;
                lemma_deficit_update(g0, j as int, g1[j as int], up);
                assert(cell_deficit(g1[j as int], up) == cell_deficit(g0[j as int], up) - CELL_HEIGHT);
                // the queue stays duplicate-free: j was not shifting, so not queued
                assert(!q0.contains(j));
                assert(q1.no_duplicates());
                // the marker/queue correspondence survives the push
                assert forall|k: int| 0 <= k < g1.len()
                    implies ((#[trigger] g1[k]).shifting is Some <==> q1.contains(k as usize)) by {
                    assert(g1.len() == glen);
                    if k == j as int {
                        assert(q1[q1.len() - 1] == j);
                        assert(q1.contains(j));
                    } else {
                        assert(g1[k] == g0[k]);
                        assert(q1.contains(k as usize) <==> q0.contains(k as usize)) by {
                            if q0.contains(k as usize) {
                                let t = choose|t: int| 0 <= t < q0.len() && q0[t] == k as usize;
                                assert(q1[t] == k as usize);
                                assert(q1.contains(k as usize));
                            } else {
                                if q1.contains(k as usize) {
                                    let t = choose|t: int| 0 <= t < q1.len() && q1[t] == k as usize;
                                    if t < q0.len() {
                                        assert(q0[t] == k as usize);
                                        assert(q0.contains(k as usize));
                                        assert(false);
                                    } else {
                                        assert(q1[t] == j);
                                        assert(false);
                                    }
                                }
                            }
                        }
                    }
                }
                // s stays out of the queue: the raised neighbor is never the edited cell
                assert(!q1.contains(s as usize)) by {
                    if q1.contains(s as usize) {
                        let t = choose|t: int| 0 <= t < q1.len() && q1[t] == s as usize;
                        if t < q0.len() {
                            assert(q0.contains(s as usize));
                        } else {
                            assert(q1[t] == j);
                            assert((j as int) != s);
                        }
                        assert(false);
                    }
                }
                assert(cascade_state_inv(h0, g1, q1, s, target, up));
                assert forall|a: int, b: int|
                    0 <= a < g1.len() && 0 <= b < g1.len() && #[trigger] adjacent(ground_view(h0), a, b)
                        && a != s && a != i
                        && dir_sep(up, g1[a].cell.layer as int, g1[b].cell.layer as int) > CELL_HEIGHT
                    implies q1.contains(a as usize) by {
                    if a == j as int {
                        assert(q1[q1.len() - 1] == j);
                        assert(q1.contains(j));
                    } else {
                        assert(g1[a] == g0[a]);
                        if b == j as int {
                            assert(dir_sep(up, g1[b].cell.layer as int, g0[b].cell.layer as int) == CELL_HEIGHT);
                            assert(dir_sep(up, g0[a].cell.layer as int, g0[b].cell.layer as int) > CELL_HEIGHT
                                || dir_sep(up, g1[a].cell.layer as int, g1[b].cell.layer as int) <= CELL_HEIGHT);
                        }
                        if dir_sep(up, g0[a].cell.layer as int, g0[b].cell.layer as int) > CELL_HEIGHT {
                            assert(q0.contains(a as usize));
                            let t = choose|t: int| 0 <= t < q0.len() && q0[t] == a as usize;
                            assert(q1[t] == a as usize);
                        }
                    }
                }
            }
        } else {
            proof {
                assert(grounds@ == g0);
            }
        }
    }
}

/// When the completed cell `i` is not the edited cell, the cascade rule
/// can only fire toward a cell that has not moved yet; firing toward the
/// edited cell or an already-moved cell would contradict the slope
/// validity of the starting state.
proof fn lemma_cascade_fresh(
    h0: Seq<GroundCell>,
    g: Seq<GroundCell>,
    q: Seq<usize>,
    s: int,
    target: int,
    up: bool,
    i: int,
    layer_i: int,
    j: int,
)
    requires
        cascade_state_inv(h0, g, q, s, target, up),
        valid_slope(h0),
        0 <= i < g.len(),
        i != s,
        g[i].cell.layer == layer_i,
        g[i].cell.layer != h0[i].cell.layer,
        adjacent(ground_view(h0), i, j),
        0 <= j < g.len(),
        j != i,
        dir_sep(up, layer_i, g[j].cell.layer as int) > CELL_HEIGHT,
    ensures
        j != s,
        g[j].cell.layer == h0[j].cell.layer,
        !q.contains(j as usize),
        dir_sep(up, target, h0[j].cell.layer + dir_step(up)) > 0,
        dir_sep(up, layer_i, g[j].cell.layer as int) <= 2 * CELL_HEIGHT,
{
    assert(g[i].cell.layer == h0[i].cell.layer + dir_step(up));
    assert(dir_sep(up, target, h0[i].cell.layer + dir_step(up)) > 0);
    assert(adjacent(ground_view(h0), j, i)) by {
        crate::neighborhood::lemma_adjacent_symmetric(ground_view(h0), i, j);
    }
    assert(h0[i].cell.layer - h0[j].cell.layer <= CELL_HEIGHT);
    assert(h0[j].cell.layer - h0[i].cell.layer <= CELL_HEIGHT);
    if j == s {
        assert(g[j].cell.layer == target);
        assert(dir_sep(up, layer_i, target) > CELL_HEIGHT);
        assert(dir_sep(up, target, h0[i].cell.layer + dir_step(up)) > 0);
        assert(false);
    }
    if g[j].cell.layer != h0[j].cell.layer {
        assert(g[j].cell.layer == h0[j].cell.layer + dir_step(up));
        assert(dir_sep(up, h0[i].cell.layer as int, h0[j].cell.layer as int) > CELL_HEIGHT);
        assert(false);
    }
    assert(!q.contains(j as usize));
}

/// What completing (popping) cell `i` does: its rendered height snaps to
/// its target and its marker is cleared, consuming one queue entry.
proof fn lemma_pop_finish(
    h0: Seq<GroundCell>,
    g_head: Seq<GroundCell>,
    q_head: Seq<usize>,
    g_fin: Seq<GroundCell>,
    q_fin: Seq<usize>,
    s: int,
    target: int,
    up: bool,
    i: usize,
)
    requires
        cascade_state_inv(h0, g_head, q_head, s, target, up),
        cascade_pending_inv(h0, g_head, q_head, s, target, up, -1),
        q_head.len() > 0,
        q_head.last() == i,
        q_fin == q_head.drop_last(),
        g_fin.len() == g_head.len(),
        (i as int) < g_head.len(),
        g_fin[i as int].cell == g_head[i as int].cell,
        g_fin[i as int].rendered == g_head[i as int].cell.layer,
        g_fin[i as int].shifting is None,
        forall|k: int| 0 <= k < g_head.len() && k != i ==> #[trigger] g_fin[k] == g_head[k],
    ensures
        cascade_state_inv(h0, g_fin, q_fin, s, target, up),
        cascade_pending_inv(h0, g_fin, q_fin, s, target, up, i as int),
        !q_fin.contains(i),
        !q_fin.contains(s as usize),
        i as int == s ==> forall|k: int| 0 <= k < g_fin.len() && k != s
            ==> (#[trigger] g_fin[k]).cell.layer == h0[k].cell.layer,
        i as int != s ==> g_fin[i as int].cell.layer != h0[i as int].cell.layer,
        settle_measure(g_fin, q_fin, up) == settle_measure(g_head, q_head, up) - CELL_HEIGHT,
{
    assert(!q_fin.contains(i)) by {
        if q_fin.contains(i) {
            let t = choose|t: int| 0 <= t < q_fin.len() && q_fin[t] == i;
            assert(q_head[t] == i);
            assert(q_head[q_head.len() - 1] == i);
            assert(false);
        }
    }
    assert forall|k: usize| q_head.contains(k) && k != i implies q_fin.contains(k) by {
        let t = choose|t: int| 0 <= t < q_head.len() && q_head[t] == k;
        assert(t < q_head.len() - 1);
        assert(q_fin[t] == k);
    }
    assert forall|k: usize| q_fin.contains(k) implies q_head.contains(k) by {
        let t = choose|t: int| 0 <= t < q_fin.len() && q_fin[t] == k;
        assert(q_head[t] == k);
    }
    assert(q_head.contains(i)) by {
        assert(q_head[q_head.len() - 1] == i);
    }
    if s != i as int {
        assert(!q_head.contains(s as usize)) by {
            if q_head.contains(s as usize) {
                assert(q_head.len() == 1);
                let t = choose|t: int| 0 <= t < q_head.len() && q_head[t] == s as usize;
                assert(t == q_head.len() - 1);
                assert(false);
            }
        }
        assert(!q_fin.contains(s as usize));
        assert(g_fin[i as int].cell.layer != h0[i as int].cell.layer);
    } else {
        assert(!q_fin.contains(s as usize));
    }
    assert forall|k: int| 0 <= k < g_fin.len()
        implies ((#[trigger] g_fin[k]).shifting is Some <==> q_fin.contains(k as usize)) by {
        if k == i as int {
            assert(g_fin[k].shifting is None);
        } else {
            assert(g_fin[k] == g_head[k]);
            assert(k as usize != i);
            assert(q_head.contains(k as usize) <==> q_fin.contains(k as usize));
        }
    }
    assert(cascade_state_inv(h0, g_fin, q_fin, s, target, up));
    assert forall|a: int, b: int|
        0 <= a < g_fin.len() && 0 <= b < g_fin.len()
            && #[trigger] adjacent(ground_view(h0), a, b)
            && a != s && a != i as int
            && dir_sep(up, g_fin[a].cell.layer as int, g_fin[b].cell.layer as int) > CELL_HEIGHT
        implies q_fin.contains(a as usize) by {
        assert(g_fin[a] == g_head[a]);
        assert(g_fin[b].cell.layer == g_head[b].cell.layer);
        assert(q_head.contains(a as usize));
        assert(a as usize != i);
    }
    assert(cascade_pending_inv(h0, g_fin, q_fin, s, target, up, i as int));
    if i as int == s {
        assert(forall|k: int| 0 <= k < g_fin.len() && k != s
            ==> (#[trigger] g_fin[k]).cell.layer == h0[k].cell.layer);
    }
    assert(g_fin =~= g_head.update(i as int, g_fin[i as int]));
    lemma_deficit_update(g_head, i as int, g_fin[i as int], up);
    assert(cell_deficit(g_fin[i as int], up) == cell_deficit(g_head[i as int], up));
}

/// Establishes what the cascade rule is allowed to assume about one
/// neighbor of the completed cell `i`: if the rule fires, the neighbor is
/// a fresh cell, and the firing separation is bounded.
proof fn lemma_prepare_link(
    h0: Seq<GroundCell>,
    g: Seq<GroundCell>,
    q: Seq<usize>,
    s: int,
    target: int,
    up: bool,
    i: int,
    layer_i: int,
    j: int,
)
    requires
        cascade_state_inv(h0, g, q, s, target, up),
        valid_slope(h0),
        adjacent(ground_view(h0), i, j),
        0 <= i < g.len(),
        0 <= j < g.len(),
        j != i,
        g[i].cell.layer == layer_i,
        g[i].shifting is None,
        !q.contains(i as usize),
        i != s ==> g[i].cell.layer != h0[i].cell.layer,
        i == s ==> layer_i == target && g[j].cell.layer == h0[j].cell.layer,
    ensures
        dir_sep(up, layer_i, g[j].cell.layer as int) > CELL_HEIGHT ==> {
            &&& j != s
            &&& g[j].cell.layer == h0[j].cell.layer
            &&& g[j].shifting is None
            &&& dir_sep(up, target, h0[j].cell.layer + dir_step(up)) > 0
        },
        i != s && dir_sep(up, layer_i, g[j].cell.layer as int) > CELL_HEIGHT
            ==> dir_sep(up, layer_i, g[j].cell.layer as int) <= 2 * CELL_HEIGHT,
        i == s && dir_sep(up, layer_i, g[j].cell.layer as int) > CELL_HEIGHT
            ==> dir_sep(up, layer_i, g[j].cell.layer as int)
                <= dir_sep(up, target, h0[s].cell.layer as int) + CELL_HEIGHT,
{
    if dir_sep(up, layer_i, g[j].cell.layer as int) > CELL_HEIGHT {
        if i != s {
            lemma_cascade_fresh(h0, g, q, s, target, up, i, layer_i, j);
            assert(g[j].shifting is None);
        } else {
            assert(j != s);
            assert(g[j].cell.layer == h0[j].cell.layer);
            assert(!q.contains(j as usize)) by {
                if q.contains(j as usize) {
                    assert(g[j].cell.layer != h0[j].cell.layer);
                }
            }
            assert(g[j].shifting is None);
            lemma_valid_slope_pair(h0, s, j);
            assert(dir_sep(up, h0[s].cell.layer as int, h0[j].cell.layer as int) <= CELL_HEIGHT);
        }
    }
}

/// Re-establishes the pending-obligation invariant after the four
/// neighbors of a completed cell have been handled.
#[verifier::rlimit(100)]
#[verifier::spinoff_prover]
proof fn lemma_restore_pending(
    h0: Seq<GroundCell>,
    hoods: Seq<Neighborhood>,
    g_head: Seq<GroundCell>,
    q_head: Seq<usize>,
    g_fin: Seq<GroundCell>,
    q_fin: Seq<usize>,
    g1: Seq<GroundCell>,
    q1: Seq<usize>,
    g2: Seq<GroundCell>,
    q2: Seq<usize>,
    g3: Seq<GroundCell>,
    q3: Seq<usize>,
    g4: Seq<GroundCell>,
    q4: Seq<usize>,
    h: Neighborhood,
    i: usize,
    layer_i: int,
    s: int,
    target: int,
    up: bool,
)
    requires
        cascade_state_inv(h0, g_head, q_head, s, target, up),
        cascade_state_inv(h0, g_fin, q_fin, s, target, up),
        cascade_state_inv(h0, g1, q1, s, target, up),
        cascade_state_inv(h0, g2, q2, s, target, up),
        cascade_state_inv(h0, g3, q3, s, target, up),
        cascade_state_inv(h0, g4, q4, s, target, up),
        cascade_pending_inv(h0, g4, q4, s, target, up, i as int),
        cascade_pending_inv(h0, g_head, q_head, s, target, up, -1),
        valid_slope(h0),
        hoods_ok(ground_view(h0), hoods),
        crate::neighborhood::unique_coords(ground_view(h0)),
        (i as int) < g_head.len(),
        h == hoods[i as int],
        !q_fin.contains(i),
        !q_fin.contains(s as usize),
        !q_head.contains(i) || q_head.last() == i,
        i as int != s ==> !q_head.contains(s as usize),
        g_fin[i as int].cell.layer == layer_i,
        g_fin[i as int].shifting is None,
        forall|k: int| 0 <= k < g_head.len() && k != i ==> #[trigger] g_fin[k] == g_head[k],
        g_fin[i as int].cell == g_head[i as int].cell,
        i as int == s ==> layer_i == target
            && (forall|k: int| 0 <= k < g_fin.len() && k != s
                ==> (#[trigger] g_fin[k]).cell.layer == h0[k].cell.layer),
        i as int != s ==> g_fin[i as int].cell.layer != h0[i as int].cell.layer,
        settle_one_rel(g_fin, q_fin, g1, q1, h.left_neighbor, layer_i, up),
        settle_one_rel(g1, q1, g2, q2, h.right_neighbor, layer_i, up),
        settle_one_rel(g2, q2, g3, q3, h.front_neighbor, layer_i, up),
        settle_one_rel(g3, q3, g4, q4, h.back_neighbor, layer_i, up),
        !q4.contains(s as usize),
    ensures
        cascade_pending_inv(h0, g4, q4, s, target, up, -1),
{
    let cells0 = ground_view(h0);
    lemma_links_distinct(cells0, i as int, h);
    if h.left_neighbor is Some {
        crate::neighborhood::lemma_link_is_adjacent(cells0, hoods, i as int, h.left_neighbor->0);
    }
    if h.right_neighbor is Some {
        crate::neighborhood::lemma_link_is_adjacent(cells0, hoods, i as int, h.right_neighbor->0);
    }
    if h.front_neighbor is Some {
        crate::neighborhood::lemma_link_is_adjacent(cells0, hoods, i as int, h.front_neighbor->0);
    }
    if h.back_neighbor is Some {
        crate::neighborhood::lemma_link_is_adjacent(cells0, hoods, i as int, h.back_neighbor->0);
    }
    lemma_rel_advance(g_fin, q_fin, g1, q1, h.left_neighbor, layer_i, up);
    lemma_rel_advance(g1, q1, g2, q2, h.right_neighbor, layer_i, up);
    lemma_rel_advance(g2, q2, g3, q3, h.front_neighbor, layer_i, up);
    lemma_rel_advance(g3, q3, g4, q4, h.back_neighbor, layer_i, up);
    assert(layers_advance(g1, g4, up));
    assert(layers_advance(g2, g4, up));
    assert(layers_advance(g3, g4, up));
    assert(layers_advance(g4, g4, up));
    // the completed cell itself is never a link of its own neighborhood
    assert(g4[i as int] == g_fin[i as int]) by {
        assert(g1[i as int] == g_fin[i as int]);
        assert(g2[i as int] == g1[i as int]);
        assert(g3[i as int] == g2[i as int]);
        assert(g4[i as int] == g3[i as int]);
    }
    let e_small = -CELL_HEIGHT <= target - h0[s].cell.layer <= CELL_HEIGHT;
    if i as int != s || e_small {
        if let Some(j) = h.left_neighbor {
            if i as int == s {
                assert(g_fin[j as int].cell.layer == h0[j as int].cell.layer);
            }
            lemma_prepare_link(h0, g_fin, q_fin, s, target, up, i as int, layer_i, j as int);
        }
        lemma_one_link_resolved(g_fin, q_fin, g1, q1, g4, h.left_neighbor, layer_i, up);
        if let Some(j) = h.right_neighbor {
            assert(g1[j as int] == g_fin[j as int]);
            if i as int == s {
                assert(g1[j as int].cell.layer == h0[j as int].cell.layer);
            }
            lemma_prepare_link(h0, g1, q1, s, target, up, i as int, layer_i, j as int);
        }
        lemma_one_link_resolved(g1, q1, g2, q2, g4, h.right_neighbor, layer_i, up);
        if let Some(j) = h.front_neighbor {
            assert(g2[j as int] == g_fin[j as int]);
            if i as int == s {
                assert(g2[j as int].cell.layer == h0[j as int].cell.layer);
            }
            lemma_prepare_link(h0, g2, q2, s, target, up, i as int, layer_i, j as int);
        }
        lemma_one_link_resolved(g2, q2, g3, q3, g4, h.front_neighbor, layer_i, up);
        if let Some(j) = h.back_neighbor {
            assert(g3[j as int] == g_fin[j as int]);
            if i as int == s {
                assert(g3[j as int].cell.layer == h0[j as int].cell.layer);
            }
            lemma_prepare_link(h0, g3, q3, s, target, up, i as int, layer_i, j as int);
        }
        lemma_one_link_resolved(g3, q3, g4, q4, g4, h.back_neighbor, layer_i, up);
        assert forall|b: int|
            0 <= b < g4.len() && #[trigger] adjacent(cells0, i as int, b)
            implies dir_sep(up, layer_i, g4[b].cell.layer as int) <= CELL_HEIGHT by {
            crate::neighborhood::lemma_adjacent_is_link(cells0, hoods, i as int, b);
            let bu = b as usize;
            assert(b == bu as int);
            if h.left_neighbor == Some(bu) {
            } else if h.right_neighbor == Some(bu) {
            } else if h.front_neighbor == Some(bu) {
            } else {
                assert(h.back_neighbor == Some(bu));
            }
        }
    }
    assert forall|a: int, b: int|
        0 <= a < g4.len() && 0 <= b < g4.len() && #[trigger] adjacent(cells0, a, b)
            && a != s && a != -1
            && dir_sep(up, g4[a].cell.layer as int, g4[b].cell.layer as int) > CELL_HEIGHT
        implies q4.contains(a as usize) by {
        if a == i as int {
            assert(dir_sep(up, layer_i, g4[b].cell.layer as int) <= CELL_HEIGHT);
            assert(false);
        }
    }
    if !q4.contains(s as usize) && e_small {
        assert forall|b: int|
            0 <= b < g4.len() && #[trigger] adjacent(cells0, s, b)
            implies dir_sep(up, g4[s].cell.layer as int, g4[b].cell.layer as int) <= CELL_HEIGHT by {
            if i as int == s {
                assert(g4[s].cell.layer == layer_i);
                assert(dir_sep(up, layer_i, g4[b].cell.layer as int) <= CELL_HEIGHT);
            } else {
                assert(dir_sep(up, g_head[s].cell.layer as int, g_head[b].cell.layer as int) <= CELL_HEIGHT);
                assert(g4[s].cell.layer == g_head[s].cell.layer) by {
                    assert(g_fin[s] == g_head[s]);
                    assert(g1[s].cell.layer == g_fin[s].cell.layer || q1.contains(s as usize));
                    assert(g4[s].cell.layer != h0[s].cell.layer + dir_step(up) || s == s);
                    assert(g_fin[s].cell.layer == target);
                    assert(g1[s].cell.layer == target);
                    assert(g2[s].cell.layer == target);
                    assert(g3[s].cell.layer == target);
                    assert(g4[s].cell.layer == target);
                }
                assert(g_fin[b].cell.layer == g_head[b].cell.layer) by {
                    if b != i as int {
                        assert(g_fin[b] == g_head[b]);
                    } else {
                        assert(g_fin[b].cell == g_head[b].cell);
                    }
                }
                lemma_rel_advance(g_fin, q_fin, g1, q1, h.left_neighbor, layer_i, up);
                assert(layers_advance(g_fin, g4, up));
                assert(dir_sep(up, g4[b].cell.layer as int, g_fin[b].cell.layer as int) >= 0);
            }
        }
    }
    assert(cascade_pending_inv(h0, g4, q4, s, target, up, -1));
}

/// Pops the next queued completion and applies the cascade rule to the
/// four neighbors of the completed cell, preserving the cascade
/// invariants and consuming at least one slope step of the loop measure.
#[verifier::rlimit(100)]
#[verifier::spinoff_prover]
fn process_next(
    grounds: &mut Vec<GroundCell>,
    queue: &mut Vec<usize>,
    hoods: &Vec<Neighborhood>,
    up: bool,
    Ghost(h0): Ghost<Seq<GroundCell>>,
    Ghost(s): Ghost<int>,
    Ghost(target): Ghost<int>,
)
    requires
        old(queue)@.len() > 0,
        cascade_state_inv(h0, old(grounds)@, old(queue)@, s, target, up),
        cascade_pending_inv(h0, old(grounds)@, old(queue)@, s, target, up, -1),
        hoods_ok(ground_view(h0), hoods@),
        crate::neighborhood::unique_coords(ground_view(h0)),
        valid_slope(h0),
    ensures
        cascade_state_inv(h0, final(grounds)@, final(queue)@, s, target, up),
        cascade_pending_inv(h0, final(grounds)@, final(queue)@, s, target, up, -1),
        settle_measure(final(grounds)@, final(queue)@, up)
            <= settle_measure(old(grounds)@, old(queue)@, up) - CELL_HEIGHT,
{
    let ghost cells0 = ground_view(h0);
    let ghost g_head = grounds@;
    let ghost q_head = queue@;
    let i = match queue.pop() {
        Some(v) => v,
        None => {
            proof {
                assert(false);
            }
            0
        },
    };
    let ci = grounds[i];
    let layer_i = ci.cell.layer;
    grounds.set(i, GroundCell { cell: ci.cell, rendered: layer_i, shifting: None });
    let ghost g_fin = grounds@;
    let ghost q_fin = queue@;
    proof {
        lemma_pop_finish(h0, g_head, q_head, g_fin, q_fin, s, target, up, i);
    }
    let h = hoods[i];
    proof {
        assert(hoods@[i as int] == h);
        lemma_links_distinct(cells0, i as int, h);
        if let Some(j) = h.left_neighbor {
            crate::neighborhood::lemma_link_is_adjacent(cells0, hoods@, i as int, j);
            if i as int == s {
                assert(g_fin[j as int].cell.layer == h0[j as int].cell.layer);
            }
            lemma_prepare_link(h0, g_fin, q_fin, s, target, up, i as int, layer_i as int, j as int);
        }
    }
    settle_one(grounds, queue, h.left_neighbor, layer_i, up, Ghost(h0), Ghost(s), Ghost(target), Ghost(i as int));
    let ghost g1 = grounds@;
    let ghost q1 = queue@;
    proof {
        assert(g1[i as int] == g_fin[i as int]);
        if let Some(j) = h.right_neighbor {
            crate::neighborhood::lemma_link_is_adjacent(cells0, hoods@, i as int, j);
            assert(g1[j as int] == g_fin[j as int]);
            if i as int == s {
                assert(g1[j as int].cell.layer == h0[j as int].cell.layer);
            }
            lemma_prepare_link(h0, g1, q1, s, target, up, i as int, layer_i as int, j as int);
        }
    }
    settle_one(grounds, queue, h.right_neighbor, layer_i, up, Ghost(h0), Ghost(s), Ghost(target), Ghost(i as int));
    let ghost g2 = grounds@;
    let ghost q2 = queue@;
    proof {
        assert(g2[i as int] == g_fin[i as int]);
        if let Some(j) = h.front_neighbor {
            crate::neighborhood::lemma_link_is_adjacent(cells0, hoods@, i as int, j);
            assert(g2[j as int] == g_fin[j as int]);
            if i as int == s {
                assert(g2[j as int].cell.layer == h0[j as int].cell.layer);
            }
            lemma_prepare_link(h0, g2, q2, s, target, up, i as int, layer_i as int, j as int);
        }
    }
    settle_one(grounds, queue, h.front_neighbor, layer_i, up, Ghost(h0), Ghost(s), Ghost(target), Ghost(i as int));
    let ghost g3 = grounds@;
    let ghost q3 = queue@;
    proof {
        assert(g3[i as int] == g_fin[i as int]);
        if let Some(j) = h.back_neighbor {
            crate::neighborhood::lemma_link_is_adjacent(cells0, hoods@, i as int, j);
            assert(g3[j as int] == g_fin[j as int]);
            if i as int == s {
                assert(g3[j as int].cell.layer == h0[j as int].cell.layer);
            }
            lemma_prepare_link(h0, g3, q3, s, target, up, i as int, layer_i as int, j as int);
        }
    }
    settle_one(grounds, queue, h.back_neighbor, layer_i, up, Ghost(h0), Ghost(s), Ghost(target), Ghost(i as int));
    proof {
        lemma_restore_pending(
            h0, hoods@, g_head, q_head, g_fin, q_fin, g1, q1, g2, q2, g3, q3, grounds@, queue@,
            h, i, layer_i as int, s, target, up,
        );
    }
}

/// Runs the cascade of a single terrain edit to completion: sets cell
/// `start`'s target height to `target`, then repeatedly finishes shifting
/// cells and applies the cascade rule to their neighbors until no cell is
/// left shifting. The loop measure (one slope step per queued completion
/// plus the remaining travel of every target toward the height bound)
/// shrinks by at least one slope step per processed completion, so the
/// cascade of any single edit terminates.
///
/// On return the population is settled again; every cell other than the
/// edited one has moved at most one slope step, the slope bound holds for
/// every adjacent pair away from the edited cell, and it holds everywhere
/// when the edit itself was at most one slope step.
#[verifier::rlimit(100)]
pub fn settle_cascade(grounds: &mut Vec<GroundCell>, hoods: &Vec<Neighborhood>, start: usize, target: i64)
    requires
        hoods_ok(ground_view(old(grounds)@), hoods@),
        crate::neighborhood::unique_coords(ground_view(old(grounds)@)),
        (start as int) < old(grounds)@.len(),
        -HEIGHT_LIMIT <= target <= HEIGHT_LIMIT,
        heights_bounded(old(grounds)@),
        settled(old(grounds)@),
        valid_slope(old(grounds)@),
    ensures
        final(grounds)@.len() == old(grounds)@.len(),
        forall|k: int| 0 <= k < old(grounds)@.len()
            ==> (#[trigger] final(grounds)@[k]).cell.row == old(grounds)@[k].cell.row
                && final(grounds)@[k].cell.col == old(grounds)@[k].cell.col,
        settled(final(grounds)@),
        heights_bounded(final(grounds)@),
        final(grounds)@[start as int].cell.layer == target,
        forall|k: int| 0 <= k < old(grounds)@.len() && k != start
            ==> (#[trigger] final(grounds)@[k]).cell.layer == old(grounds)@[k].cell.layer
                || (target > old(grounds)@[start as int].cell.layer
                    && final(grounds)@[k].cell.layer == old(grounds)@[k].cell.layer + CELL_HEIGHT)
                || (target < old(grounds)@[start as int].cell.layer
                    && final(grounds)@[k].cell.layer == old(grounds)@[k].cell.layer - CELL_HEIGHT),
        target >= old(grounds)@[start as int].cell.layer
            ==> forall|a: int, b: int|
                0 <= a < old(grounds)@.len() && 0 <= b < old(grounds)@.len()
                    && #[trigger] adjacent(ground_view(old(grounds)@), a, b) && a != start
                ==> final(grounds)@[a].cell.layer - final(grounds)@[b].cell.layer <= CELL_HEIGHT,
        target <= old(grounds)@[start as int].cell.layer
            ==> forall|a: int, b: int|
                0 <= a < old(grounds)@.len() && 0 <= b < old(grounds)@.len()
                    && #[trigger] adjacent(ground_view(old(grounds)@), a, b) && a != start
                ==> final(grounds)@[b].cell.layer - final(grounds)@[a].cell.layer <= CELL_HEIGHT,
        -CELL_HEIGHT <= target - old(grounds)@[start as int].cell.layer <= CELL_HEIGHT
            ==> valid_slope(final(grounds)@),
{
    let n0 = grounds.len();
    let ghost h0 = grounds@;
    let ghost cells0 = ground_view(h0);
    let ghost s = start as int;
    let old_layer = grounds[start].cell.layer;
    if target == old_layer {
        proof {
            assert forall|a: int, b: int|
                0 <= a < h0.len() && 0 <= b < h0.len() && #[trigger] adjacent(cells0, a, b)
                implies h0[b].cell.layer - h0[a].cell.layer <= CELL_HEIGHT by {
                lemma_valid_slope_pair(h0, a, b);
            }
        }
        return;
    }
    let up = target > old_layer;
    let c0 = grounds[start];
    grounds.set(start, GroundCell {
        cell: GridCell { row: c0.cell.row, col: c0.cell.col, layer: target },
        rendered: c0.rendered,
        shifting: Some(Shifting { up }),
    });
    let mut queue: Vec<usize> = Vec::new();
    queue.push(start);
    proof {
        assert(queue@ =~= seq![start]);
        assert(queue@[0] == start);
        assert(queue@.contains(start));
        assert forall|k: int| 0 <= k < grounds@.len()
            implies ((#[trigger] grounds@[k]).shifting is Some <==> queue@.contains(k as usize)) by {
            if k == s {
                assert(k as usize == start);
            } else {
                if queue@.contains(k as usize) {
                    let t = choose|t: int| 0 <= t < queue@.len() && queue@[t] == k as usize;
                    assert(queue@[t] == start);
                }
            }
        }
        assert(cascade_state_inv(h0, grounds@, queue@, s, target as int, up));
        assert forall|a: int, b: int|
            0 <= a < grounds@.len() && 0 <= b < grounds@.len() && #[trigger] adjacent(cells0, a, b)
                && a != s && a != -1
                && dir_sep(up, grounds@[a].cell.layer as int, grounds@[b].cell.layer as int) > CELL_HEIGHT
            implies queue@.contains(a as usize) by {
            lemma_valid_slope_pair(h0, a, b);
            assert(grounds@[a].cell.layer == h0[a].cell.layer);
            if b != s {
                assert(grounds@[b].cell.layer == h0[b].cell.layer);
                assert(false);
            } else {
                assert(dir_sep(up, target as int, h0[s].cell.layer as int) > 0);
                assert(false);
            }
        }
        assert(cascade_pending_inv(h0, grounds@, queue@, s, target as int, up, -1));
    }
    while queue.len() != 0
        invariant
            cascade_state_inv(h0, grounds@, queue@, s, target as int, up),
            cascade_pending_inv(h0, grounds@, queue@, s, target as int, up, -1),
            hoods_ok(cells0, hoods@),
            crate::neighborhood::unique_coords(cells0),
            valid_slope(h0),
            settled(h0),
            heights_bounded(h0),
            cells0 == ground_view(h0),
            s == start as int,
            up == (target > h0[s].cell.layer),
            -HEIGHT_LIMIT <= target <= HEIGHT_LIMIT,
        decreases settle_measure(grounds@, queue@, up),
    {
        process_next(grounds, &mut queue, hoods, up, Ghost(h0), Ghost(s), Ghost(target as int));
        proof {
            lemma_deficit_nonneg(grounds@, up);
            assert(settle_measure(grounds@, queue@, up) >= 0);
        }
    }
    proof {
        let gf = grounds@;
        assert forall|k: int| 0 <= k < gf.len() implies (#[trigger] gf[k]).shifting is None by {
            if gf[k].shifting is Some {
                assert(queue@.contains(k as usize));
            }
        }
        assert(settled(gf));
        assert forall|a: int, b: int|
            0 <= a < gf.len() && 0 <= b < gf.len() && #[trigger] adjacent(cells0, a, b) && a != s
            implies dir_sep(up, gf[a].cell.layer as int, gf[b].cell.layer as int) <= CELL_HEIGHT by {
            if dir_sep(up, gf[a].cell.layer as int, gf[b].cell.layer as int) > CELL_HEIGHT {
                assert(queue@.contains(a as usize));
                assert(false);
            }
        }
        if -CELL_HEIGHT <= target - h0[s].cell.layer <= CELL_HEIGHT {
            assert forall|a: int, b: int|
                0 <= a < gf.len() && 0 <= b < gf.len() && #[trigger] adjacent(cells0, a, b)
                implies gf[a].cell.layer - gf[b].cell.layer <= CELL_HEIGHT by {
                crate::neighborhood::lemma_adjacent_symmetric(cells0, a, b);
                if up {
                    if a != s {
                        assert(dir_sep(up, gf[a].cell.layer as int, gf[b].cell.layer as int) <= CELL_HEIGHT);
                    } else {
                        assert(dir_sep(up, gf[s].cell.layer as int, gf[b].cell.layer as int) <= CELL_HEIGHT);
                    }
                } else {
                    if b != s {
                        assert(dir_sep(up, gf[b].cell.layer as int, gf[a].cell.layer as int) <= CELL_HEIGHT);
                    } else {
                        assert(dir_sep(up, gf[s].cell.layer as int, gf[a].cell.layer as int) <= CELL_HEIGHT);
                    }
                }
            }
            assert forall|a: int, b: int|
                0 <= a < gf.len() && 0 <= b < gf.len() && #[trigger] adjacent(ground_view(gf), a, b)
                implies gf[a].cell.layer - gf[b].cell.layer <= CELL_HEIGHT by {
                assert(adjacent(cells0, a, b)) by {
                    assert(ground_view(gf)[a].row == cells0[a].row);
                    assert(ground_view(gf)[a].col == cells0[a].col);
                    assert(ground_view(gf)[b].row == cells0[b].row);
                    assert(ground_view(gf)[b].col == cells0[b].col);
                }
            }
            assert(valid_slope(gf));
        }
    }
}

/// Every completion notification of an animation pass points at a live
/// cell and carries that cell's target layer.
pub proof fn lemma_step_events_wf(cells: Seq<GroundCell>, delta: i64, t: int)
    requires
        cells.len() <= usize::MAX,
        0 <= t < step_events(cells, delta).len(),
    ensures
        (step_events(cells, delta)[t].index as int) < cells.len(),
        step_events(cells, delta)[t].layer
            == cells[step_events(cells, delta)[t].index as int].cell.layer,
    decreases cells.len(),
{
    let evs = step_events(cells, delta);
    let prefix = step_events(cells.drop_last(), delta);
    if t < prefix.len() {
        lemma_step_events_wf(cells.drop_last(), delta, t);
        assert(evs[t] == prefix[t]);
        assert(cells.drop_last()[prefix[t].index as int] == cells[prefix[t].index as int]);
    } else {
        assert(cell_finishes(cells.last(), delta));
        assert(evs[t] == finish_event(cells.len() - 1, cells.last()));
    }
}

/// The whole population after one animation pass of size `delta`.
pub open spec fn advanced_pop(g: Seq<GroundCell>, delta: i64) -> Seq<GroundCell> {
    Seq::new(g.len(), |k: int| advanced_cell(g[k], delta))
}

/// The whole population after one cascade step from a completed cell
/// with neighborhood `h`, direction `up` and final height `layer`.
pub open spec fn cascaded_pop(g: Seq<GroundCell>, h: Neighborhood, up: bool, layer: int) -> Seq<GroundCell> {
    Seq::new(g.len(), |k: int| if is_link(h, k as usize) {
        cascaded_cell(g[k], up, layer)
    } else {
        g[k]
    })
}

/// The population after the first `n` completion notifications of a tick
/// have each run their cascade step, in order.
pub open spec fn grounds_after_events(
    g: Seq<GroundCell>,
    hoods: Seq<Neighborhood>,
    events: Seq<ShiftFinished>,
    n: int,
) -> Seq<GroundCell>
    decreases n,
{
    if n <= 0 {
        g
    } else {
        let prev = grounds_after_events(g, hoods, events, n - 1);
        cascaded_pop(prev, hoods[events[n - 1].index as int], events[n - 1].up, events[n - 1].layer as int)
    }
}

} // verus!
