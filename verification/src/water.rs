//! Water cells: grid cells that carry an accumulated volume and a signed
//! flow rate. A water cell's height and volume move together (one unit of
//! height per unit of volume), and the cell disappears once it drains
//! below its paired terrain cell.

use vstd::prelude::*;

use crate::grid::{GridCell, HEIGHT_LIMIT};

verus! {

/// The fluid state of a water cell: `amount` is the accumulated volume,
/// `rate` the signed unit flow step (-1, 0 or +1) computed each tick.
#[derive(Clone, Copy, Debug)]
pub struct Water {
    pub amount: i64,
    pub rate: i64,
}

/// One water unit: a grid cell (whose `layer` is the rendered water
/// height), its fluid state, a stable identifier used by pairings, and
/// the draining marker that enables leveling for this cell.
#[derive(Clone, Copy, Debug)]
pub struct WaterCell {
    pub id: u64,
    pub cell: GridCell,
    pub water: Water,
    pub draining: bool,
}

/// The coordinates of a water population, as plain grid cells.
pub open spec fn water_view(waters: Seq<WaterCell>) -> Seq<GridCell> {
    Seq::new(waters.len(), |i: int| waters[i].cell)
}

/// Every water cell's height and volume are within the engine's height
/// bound and its flow rate is a signed unit step.
pub open spec fn waters_bounded(waters: Seq<WaterCell>) -> bool {
    forall|k: int| 0 <= k < waters.len() ==> {
        &&& -HEIGHT_LIMIT <= (#[trigger] waters[k]).cell.layer <= HEIGHT_LIMIT
        &&& -HEIGHT_LIMIT <= waters[k].water.amount <= HEIGHT_LIMIT
        &&& -1 <= waters[k].water.rate <= 1
    }
}

/// Water identifiers are pairwise distinct.
pub open spec fn water_ids_unique(waters: Seq<WaterCell>) -> bool {
    forall|a: int, b: int|
        0 <= a < waters.len() && 0 <= b < waters.len() && a != b
            ==> (#[trigger] waters[a]).id != (#[trigger] waters[b]).id
}

/// Whether the despawn sweep keeps water cell `w` with pair `p`: it
/// stays unless its rendered height has dropped strictly below its paired
/// terrain cell's rendered height.
pub open spec fn despawn_keeps(w: WaterCell, p: crate::pair::Pair, grounds: Seq<crate::shifting::GroundCell>) -> bool {
    w.cell.layer >= grounds[p.ground as int].rendered
}

/// The first `n` water cells that survive a despawn sweep, in order.
pub open spec fn swept_waters(
    waters: Seq<WaterCell>,
    pairs: Seq<crate::pair::Pair>,
    grounds: Seq<crate::shifting::GroundCell>,
    n: int,
) -> Seq<WaterCell>
    decreases n,
{
    if n <= 0 {
        Seq::empty()
    } else {
        swept_waters(waters, pairs, grounds, n - 1)
            + if despawn_keeps(waters[n - 1], pairs[n - 1], grounds) {
                seq![waters[n - 1]]
            } else {
                Seq::empty()
            }
    }
}

/// The pairs of the first `n` water cells that survive a despawn sweep.
pub open spec fn swept_pairs(
    waters: Seq<WaterCell>,
    pairs: Seq<crate::pair::Pair>,
    grounds: Seq<crate::shifting::GroundCell>,
    n: int,
) -> Seq<crate::pair::Pair>
    decreases n,
{
    if n <= 0 {
        Seq::empty()
    } else {
        swept_pairs(waters, pairs, grounds, n - 1)
            + if despawn_keeps(waters[n - 1], pairs[n - 1], grounds) {
                seq![pairs[n - 1]]
            } else {
                Seq::empty()
            }
    }
}

/// Every surviving water cell of a sweep is one of the original cells,
/// at a position the sweep kept.
pub proof fn lemma_swept_source(
    waters: Seq<WaterCell>,
    pairs: Seq<crate::pair::Pair>,
    grounds: Seq<crate::shifting::GroundCell>,
    n: int,
    x: WaterCell,
)
    requires
        0 <= n <= waters.len(),
        pairs.len() == waters.len(),
        swept_waters(waters, pairs, grounds, n).contains(x),
    ensures
        exists|m: int| 0 <= m < n && waters[m] == x
            && despawn_keeps(waters[m], #[trigger] pairs[m], grounds),
    decreases n,
{
    let sw = swept_waters(waters, pairs, grounds, n);
    let swp = swept_waters(waters, pairs, grounds, n - 1);
    let t = choose|t: int| 0 <= t < sw.len() && sw[t] == x;
    if t < swp.len() {
        assert(swp[t] == x);
        assert(swp.contains(x));
        lemma_swept_source(waters, pairs, grounds, n - 1, x);
        let m = choose|m: int| 0 <= m < n - 1 && waters[m] == x
            && despawn_keeps(waters[m], #[trigger] pairs[m], grounds);
        assert(despawn_keeps(waters[m], pairs[m], grounds));
    } else {
        assert(despawn_keeps(waters[n - 1], pairs[n - 1], grounds));
        assert(sw[t] == waters[n - 1]);
        assert(waters[n - 1] == x);
    }
}

/// Despawn correctness: a water cell whose rendered height is strictly
/// below its paired terrain cell's rendered height does not survive the
/// sweep, and neither does its pair — both are removed together.
pub proof fn lemma_despawn_correct(
    waters: Seq<WaterCell>,
    pairs: Seq<crate::pair::Pair>,
    grounds: Seq<crate::shifting::GroundCell>,
    k: int,
)
    requires
        pairs.len() == waters.len(),
        water_ids_unique(waters),
        forall|a: int| 0 <= a < pairs.len() ==> (#[trigger] pairs[a]).water == waters[a].id,
        0 <= k < waters.len(),
        !despawn_keeps(waters[k], pairs[k], grounds),
    ensures
        !swept_waters(waters, pairs, grounds, waters.len() as int).contains(waters[k]),
        !swept_pairs(waters, pairs, grounds, waters.len() as int).contains(pairs[k]),
    decreases waters.len(),
{
    let n = waters.len() as int;
    if swept_waters(waters, pairs, grounds, n).contains(waters[k]) {
        lemma_swept_source(waters, pairs, grounds, n, waters[k]);
        let m = choose|m: int| 0 <= m < n && waters[m] == waters[k]
            && despawn_keeps(waters[m], #[trigger] pairs[m], grounds);
        assert(waters[m].id == waters[k].id);
        assert(m == k);
        assert(false);
    }
    if swept_pairs(waters, pairs, grounds, n).contains(pairs[k]) {
        lemma_swept_pair_source(waters, pairs, grounds, n, pairs[k]);
        let m = choose|m: int| 0 <= m < n && pairs[m] == pairs[k]
            && despawn_keeps(#[trigger] waters[m], pairs[m], grounds);
        assert(waters[m].id == pairs[m].water);
        assert(waters[m].id == waters[k].id);
        assert(m == k);
        assert(false);
    }
}

/// Every surviving pair of a sweep is one of the original pairs, at a
/// position the sweep kept.
pub proof fn lemma_swept_pair_source(
    waters: Seq<WaterCell>,
    pairs: Seq<crate::pair::Pair>,
    grounds: Seq<crate::shifting::GroundCell>,
    n: int,
    x: crate::pair::Pair,
)
    requires
        0 <= n <= waters.len(),
        pairs.len() == waters.len(),
        swept_pairs(waters, pairs, grounds, n).contains(x),
    ensures
        exists|m: int| 0 <= m < n && pairs[m] == x
            && despawn_keeps(#[trigger] waters[m], pairs[m], grounds),
    decreases n,
{
    let sp = swept_pairs(waters, pairs, grounds, n);
    let spp = swept_pairs(waters, pairs, grounds, n - 1);
    let t = choose|t: int| 0 <= t < sp.len() && sp[t] == x;
    if t < spp.len() {
        assert(spp[t] == x);
        assert(spp.contains(x));
        lemma_swept_pair_source(waters, pairs, grounds, n - 1, x);
        let m = choose|m: int| 0 <= m < n - 1 && pairs[m] == x
            && despawn_keeps(#[trigger] waters[m], pairs[m], grounds);
        assert(despawn_keeps(waters[m], pairs[m], grounds));
    } else {
        assert(despawn_keeps(waters[n - 1], pairs[n - 1], grounds));
        assert(sp[t] == pairs[n - 1]);
        assert(pairs[n - 1] == x);
    }
}

/// A water cell moved one level step up or down by a completed terrain
/// shift underneath it, volume unchanged; a move that would leave the
/// height bound is skipped.
pub open spec fn shifted_water(w: WaterCell, upward: bool) -> WaterCell {
    let moved = w.cell.layer + if upward { crate::grid::CELL_HEIGHT as int } else { -(crate::grid::CELL_HEIGHT as int) };
    if -HEIGHT_LIMIT <= moved <= HEIGHT_LIMIT {
        WaterCell {
            cell: GridCell { row: w.cell.row, col: w.cell.col, layer: moved as i64 },
            ..w
        }
    } else {
        w
    }
}

/// A water cell after a manual fill: one level unit of volume and height
/// added (skipped at the height bound), and the cell marked eligible for
/// draining again — a freshly marked cell starts with a zero flow rate.
pub open spec fn filled_water(w: WaterCell) -> WaterCell {
    let grown = if w.cell.layer + crate::grid::CELL_HEIGHT <= HEIGHT_LIMIT
        && w.water.amount + crate::grid::CELL_HEIGHT <= HEIGHT_LIMIT {
        WaterCell {
            cell: GridCell {
                row: w.cell.row,
                col: w.cell.col,
                layer: (w.cell.layer + crate::grid::CELL_HEIGHT) as i64,
            },
            water: Water { amount: (w.water.amount + crate::grid::CELL_HEIGHT) as i64, ..w.water },
            ..w
        }
    } else {
        w
    };
    WaterCell {
        draining: true,
        water: Water { rate: if w.draining { w.water.rate } else { 0 }, ..grown.water },
        ..grown
    }
}

/// What one completed terrain shift does to the water population: the
/// water cell paired to the shifted terrain cell moves one level step in
/// the shift's direction; without a pair nothing moves.
pub open spec fn waters_after_event(
    waters: Seq<WaterCell>,
    pairs: Seq<crate::pair::Pair>,
    index: usize,
    upward: bool,
) -> Seq<WaterCell> {
    match crate::pair::pair_for(pairs, index) {
        Some(k) => waters.update(k, shifted_water(waters[k], upward)),
        None => waters,
    }
}

/// The water population after the first `n` completion notifications of
/// a tick have each moved their paired water cell.
pub open spec fn waters_after_events(
    waters: Seq<WaterCell>,
    pairs: Seq<crate::pair::Pair>,
    events: Seq<crate::shifting::ShiftFinished>,
    n: int,
) -> Seq<WaterCell>
    decreases n,
{
    if n <= 0 {
        waters
    } else {
        waters_after_event(
            waters_after_events(waters, pairs, events, n - 1),
            pairs,
            events[n - 1].index,
            events[n - 1].up,
        )
    }
}

} // verus!
