//! The fluid leveling engine. Each tick, every draining water cell sums
//! the height differences with its water-neighbors (ignoring differences
//! below a small cutoff, and neighbors without volume — those are seeded
//! to start draining instead), normalizes the sum to a signed unit step,
//! and then moves its volume and height together by that step. A cell
//! whose volume falls below zero is clamped to zero and stops draining.

use vstd::prelude::*;

use crate::grid::{GridCell, HEIGHT_LIMIT};
use crate::neighborhood::Neighborhood;
use crate::simulation::Simulation;
use crate::water::{WaterCell, water_view, waters_bounded};

verus! {

/// Flow per tick of a leveling water cell, in milli-units of height.
pub const WATER_SPEED: i64 = 20;

/// Height differences below this cutoff are ignored, so near-equal
/// neighbors do not oscillate.
pub const LEVEL_CUTOFF: i64 = 50;

/// What one water-neighbor contributes to a cell's drain rate: the raw
/// height difference, counted only when it reaches the cutoff and the
/// neighbor actually holds water.
pub open spec fn link_contrib(waters: Seq<WaterCell>, k: int, link: Option<usize>) -> int {
    match link {
        Some(j) => {
            if 0 <= (j as int) < waters.len() {
                let diff = waters[j as int].cell.layer - waters[k].cell.layer;
                if (diff >= LEVEL_CUTOFF || diff <= -LEVEL_CUTOFF) && waters[j as int].water.amount > 0 {
                    diff
                } else {
                    0
                }
            } else {
                0
            }
        },
        None => 0,
    }
}

/// The neighbor that one link asks to be seeded: an empty neighbor lying
/// a full cutoff below this cell gets a draining marker instead of a
/// numeric contribution.
pub open spec fn link_seed(waters: Seq<WaterCell>, k: int, link: Option<usize>) -> Option<usize> {
    match link {
        Some(j) => {
            if 0 <= (j as int) < waters.len()
                && waters[j as int].cell.layer - waters[k].cell.layer <= -LEVEL_CUTOFF
                && waters[j as int].water.amount <= 0 {
                Some(j)
            } else {
                None
            }
        },
        None => None,
    }
}

/// The summed drain rate of water cell `k` over its four links.
pub open spec fn drain_sum(waters: Seq<WaterCell>, hoods: Seq<Neighborhood>, k: int) -> int {
    link_contrib(waters, k, hoods[k].left_neighbor)
        + link_contrib(waters, k, hoods[k].right_neighbor)
        + link_contrib(waters, k, hoods[k].front_neighbor)
        + link_contrib(waters, k, hoods[k].back_neighbor)
}

/// The normalized unit step of a summed rate: -1, 0 or +1. This bounds
/// flow speed independently of how many neighbors disagree.
pub open spec fn unit_rate(sum: int) -> int {
    if sum == 0 {
        0
    } else if sum < 0 {
        -1
    } else {
        1
    }
}

/// A seed request as a sequence of zero or one indices.
pub open spec fn seed_seq(o: Option<usize>) -> Seq<usize> {
    match o {
        Some(j) => seq![j],
        None => Seq::empty(),
    }
}

/// The seed requests of water cell `k`, in link order.
pub open spec fn cell_seeds(waters: Seq<WaterCell>, hoods: Seq<Neighborhood>, k: int) -> Seq<usize> {
    seed_seq(link_seed(waters, k, hoods[k].left_neighbor))
        + seed_seq(link_seed(waters, k, hoods[k].right_neighbor))
        + seed_seq(link_seed(waters, k, hoods[k].front_neighbor))
        + seed_seq(link_seed(waters, k, hoods[k].back_neighbor))
}

/// All seed requests of the first `n` draining water cells, in cell
/// order.
pub open spec fn seeds_spec(waters: Seq<WaterCell>, hoods: Seq<Neighborhood>, n: int) -> Seq<usize>
    decreases n,
{
    if n <= 0 {
        Seq::empty()
    } else {
        seeds_spec(waters, hoods, n - 1)
            + if waters[n - 1].draining {
                cell_seeds(waters, hoods, n - 1)
            } else {
                Seq::empty()
            }
    }
}

/// The attach pass on one cell: a cell holding volume is marked
/// draining; a freshly marked cell starts with a zero flow rate.
pub open spec fn marked_cell(w: WaterCell) -> WaterCell {
    if !w.draining && w.water.amount > 0 {
        WaterCell {
            water: crate::water::Water { rate: 0, ..w.water },
            draining: true,
            ..w
        }
    } else {
        w
    }
}

/// The whole attach pass.
pub open spec fn attached_pass(ws: Seq<WaterCell>) -> Seq<WaterCell> {
    Seq::new(ws.len(), |k: int| marked_cell(ws[k]))
}

/// The rate pass on one cell: a draining cell's rate becomes the
/// normalized unit step of its drain sum; an idle cell keeps its rate.
pub open spec fn rated_cell(ws: Seq<WaterCell>, hoods: Seq<Neighborhood>, k: int) -> WaterCell {
    if ws[k].draining {
        WaterCell {
            water: crate::water::Water {
                rate: unit_rate(drain_sum(ws, hoods, k)) as i64,
                ..ws[k].water
            },
            ..ws[k]
        }
    } else {
        ws[k]
    }
}

/// The whole rate pass.
pub open spec fn rated_pass(ws: Seq<WaterCell>, hoods: Seq<Neighborhood>) -> Seq<WaterCell> {
    Seq::new(ws.len(), |k: int| rated_cell(ws, hoods, k))
}

/// The seed pass on one cell: a requested cell starts draining with a
/// zero rate; a cell already draining is left alone.
pub open spec fn seeded_cell(w: WaterCell, requested: bool) -> WaterCell {
    if requested && !w.draining {
        WaterCell {
            water: crate::water::Water { rate: 0, ..w.water },
            draining: true,
            ..w
        }
    } else {
        w
    }
}

/// The whole seed pass.
pub open spec fn seeded_pass(ws: Seq<WaterCell>, seeds: Seq<usize>) -> Seq<WaterCell> {
    Seq::new(ws.len(), |k: int| seeded_cell(ws[k], seeds.contains(k as usize)))
}

/// The apply pass on one cell: a draining cell's volume and height move
/// together by one unit step of `WATER_SPEED`; a move that would leave
/// the height bound is skipped.
pub open spec fn drained_cell(w: WaterCell) -> WaterCell {
    let step = w.water.rate * WATER_SPEED;
    if w.draining
        && -HEIGHT_LIMIT <= w.cell.layer + step <= HEIGHT_LIMIT
        && -HEIGHT_LIMIT <= w.water.amount + step <= HEIGHT_LIMIT {
        WaterCell {
            cell: GridCell { layer: (w.cell.layer + step) as i64, ..w.cell },
            water: crate::water::Water { amount: (w.water.amount + step) as i64, ..w.water },
            ..w
        }
    } else {
        w
    }
}

/// The whole apply pass.
pub open spec fn drained_pass(ws: Seq<WaterCell>) -> Seq<WaterCell> {
    Seq::new(ws.len(), |k: int| drained_cell(ws[k]))
}

/// The drain-out clamp on one cell: negative volume is clamped to zero
/// and the cell stops draining, its rate destroyed with the marker.
pub open spec fn clamped_cell(w: WaterCell) -> WaterCell {
    if w.water.amount < 0 {
        WaterCell {
            water: crate::water::Water { amount: 0, rate: 0 },
            draining: false,
            ..w
        }
    } else {
        w
    }
}

/// The whole clamp pass.
pub open spec fn clamped_pass(ws: Seq<WaterCell>) -> Seq<WaterCell> {
    Seq::new(ws.len(), |k: int| clamped_cell(ws[k]))
}

/// Drain-rate settling near equilibrium: a draining cell whose height is
/// within the cutoff of every water-neighbor gets a zero drain sum, so
/// the leveling pass sets its rate to zero within one tick.
pub proof fn lemma_drain_rate_settles(waters: Seq<WaterCell>, hoods: Seq<Neighborhood>, k: int)
    requires
        0 <= k < waters.len(),
        hoods.len() == waters.len(),
        forall|j: int| 0 <= j < waters.len()
            && crate::neighborhood::is_link(hoods[k], j as usize)
            ==> -LEVEL_CUTOFF < (#[trigger] waters[j]).cell.layer - waters[k].cell.layer < LEVEL_CUTOFF,
    ensures
        drain_sum(waters, hoods, k) == 0,
        unit_rate(drain_sum(waters, hoods, k)) == 0,
{
    let h = hoods[k];
    if let Some(j) = h.left_neighbor {
        if 0 <= (j as int) < waters.len() {
            assert(crate::neighborhood::is_link(h, j));
            assert(link_contrib(waters, k, h.left_neighbor) == 0);
        }
    }
    if let Some(j) = h.right_neighbor {
        if 0 <= (j as int) < waters.len() {
            assert(crate::neighborhood::is_link(h, j));
            assert(link_contrib(waters, k, h.right_neighbor) == 0);
        }
    }
    if let Some(j) = h.front_neighbor {
        if 0 <= (j as int) < waters.len() {
            assert(crate::neighborhood::is_link(h, j));
            assert(link_contrib(waters, k, h.front_neighbor) == 0);
        }
    }
    if let Some(j) = h.back_neighbor {
        if 0 <= (j as int) < waters.len() {
            assert(crate::neighborhood::is_link(h, j));
            assert(link_contrib(waters, k, h.back_neighbor) == 0);
        }
    }
}

/// Computes one link's contribution and seed request for cell `k`.
fn eval_link(waters: &Vec<WaterCell>, k: usize, link: Option<usize>) -> (r: (i64, Option<usize>))
    requires
        (k as int) < waters@.len(),
        waters_bounded(waters@),
    ensures
        r.0 == link_contrib(waters@, k as int, link),
        r.1 == link_seed(waters@, k as int, link),
{
    match link {
        Some(j) => {
            if j < waters.len() {
                let diff = waters[j].cell.layer - waters[k].cell.layer;
                let flow = if (diff >= LEVEL_CUTOFF || diff <= -LEVEL_CUTOFF) && waters[j].water.amount > 0 {
                    diff
                } else {
                    0
                };
                let seed = if diff <= -LEVEL_CUTOFF && waters[j].water.amount <= 0 {
                    Some(j)
                } else {
                    None
                };
                (flow, seed)
            } else {
                (0, None)
            }
        },
        None => (0, None),
    }
}

impl Simulation {
    /// Marks every water cell holding volume as draining, so that the
    /// leveling pass considers it.
    pub fn attach_draining(&mut self)
        requires
            old(self).wf(),
        ensures
            final(self).wf(),
            final(self).waters@.len() == old(self).waters@.len(),
            final(self).waters@ == attached_pass(old(self).waters@),
            forall|k: int| 0 <= k < old(self).waters@.len()
                ==> #[trigger] final(self).waters@[k] == marked_cell(old(self).waters@[k]),
            final(self).grounds@ == old(self).grounds@,
            final(self).ground_hoods@ == old(self).ground_hoods@,
            final(self).water_hoods@ == old(self).water_hoods@,
            final(self).pairs@ == old(self).pairs@,
            final(self).next_water_id == old(self).next_water_id,
            final(self).settings == old(self).settings,
    {
        let n = self.waters.len();
        let mut k: usize = 0;
        while k < n
            invariant
                old(self).wf(),
                self.grounds@ == old(self).grounds@,
                self.ground_hoods@ == old(self).ground_hoods@,
                self.water_hoods@ == old(self).water_hoods@,
                self.pairs@ == old(self).pairs@,
                self.next_water_id == old(self).next_water_id,
                self.settings == old(self).settings,
                n == old(self).waters@.len(),
                self.waters@.len() == old(self).waters@.len(),
                k <= n,
                forall|t: int| 0 <= t < k
                    ==> #[trigger] self.waters@[t] == marked_cell(old(self).waters@[t]),
                forall|t: int| k <= t < n ==> #[trigger] self.waters@[t] == old(self).waters@[t],
            decreases n - k,
        {
            let w = self.waters[k];
            if w.water.amount > 0 && !w.draining {
                self.waters.set(k, WaterCell {
                    water: crate::water::Water { amount: w.water.amount, rate: 0 },
                    draining: true,
                    ..w
                });
            }
            k = k + 1;
        }
        proof {
            assert(water_view(self.waters@) =~= water_view(old(self).waters@));
            assert(self.wf());
            assert(self.waters@ =~= attached_pass(old(self).waters@));
        }
    }

    /// Marks the requested water cells as draining (the seeding of empty
    /// neighbors that the leveling pass asked for).
    pub fn add_draining(&mut self, seeds: &Vec<usize>)
        requires
            old(self).wf(),
            forall|t: int| 0 <= t < seeds@.len() ==> (#[trigger] seeds@[t] as int) < old(self).waters@.len(),
        ensures
            final(self).wf(),
            final(self).waters@.len() == old(self).waters@.len(),
            final(self).waters@ == seeded_pass(old(self).waters@, seeds@),
            forall|k: int| 0 <= k < old(self).waters@.len()
                ==> #[trigger] final(self).waters@[k]
                    == seeded_cell(old(self).waters@[k], seeds@.contains(k as usize)),
            final(self).grounds@ == old(self).grounds@,
            final(self).ground_hoods@ == old(self).ground_hoods@,
            final(self).water_hoods@ == old(self).water_hoods@,
            final(self).pairs@ == old(self).pairs@,
            final(self).next_water_id == old(self).next_water_id,
            final(self).settings == old(self).settings,
    {
        let n = seeds.len();
        let wn = self.waters.len();
        let mut t: usize = 0;
        while t < n
            invariant
                old(self).wf(),
                self.grounds@ == old(self).grounds@,
                self.ground_hoods@ == old(self).ground_hoods@,
                self.water_hoods@ == old(self).water_hoods@,
                self.pairs@ == old(self).pairs@,
                self.next_water_id == old(self).next_water_id,
                self.settings == old(self).settings,
                n == seeds@.len(),
                wn == old(self).waters@.len(),
                self.waters@.len() == old(self).waters@.len(),
                forall|u: int| 0 <= u < n ==> (#[trigger] seeds@[u] as int) < self.waters@.len(),
                t <= n,
                forall|k: int| 0 <= k < self.waters@.len()
                    ==> #[trigger] self.waters@[k]
                        == seeded_cell(old(self).waters@[k], seeds@.take(t as int).contains(k as usize)),
            decreases n - t,
        {
            let idx = seeds[t];
            let w = self.waters[idx];
            if !w.draining {
                self.waters.set(idx, WaterCell {
                    water: crate::water::Water { amount: w.water.amount, rate: 0 },
                    draining: true,
                    ..w
                });
            }
            t = t + 1;
            proof {
                assert forall|k: int| 0 <= k < self.waters@.len()
                    implies #[trigger] self.waters@[k]
                        == seeded_cell(old(self).waters@[k], seeds@.take(t as int).contains(k as usize)) by {
                    let prev = seeds@.take(t - 1);
                    let cur = seeds@.take(t as int);
                    assert(cur.drop_last() =~= prev);
                    assert(cur.last() == seeds@[t - 1]);
                    if k == idx as int {
                        assert(cur[t - 1] == idx);
                        assert(cur.contains(idx));
                    } else {
                        assert(0 <= k < wn);
                        assert((k as usize) as int == k);
                        assert(cur.contains(k as usize) <==> prev.contains(k as usize)) by {
                            if prev.contains(k as usize) {
                                let u = choose|u: int| 0 <= u < prev.len() && prev[u] == k as usize;
                                assert(cur[u] == k as usize);
                            }
                            if cur.contains(k as usize) {
                                let u = choose|u: int| 0 <= u < cur.len() && cur[u] == k as usize;
                                if u < t - 1 {
                                    assert(prev[u] == k as usize);
                                } else {
                                    assert(cur[u] == idx);
                                }
                            }
                        }
                    }
                }
            }
        }
        proof {
            assert(seeds@.take(n as int) =~= seeds@);
            assert(water_view(self.waters@) =~= water_view(old(self).waters@));
            assert(self.wf());
            assert(self.waters@ =~= seeded_pass(old(self).waters@, seeds@));
        }
    }

    /// The leveling pass: computes every draining cell's drain rate from
    /// the height differences with its water-neighbors, normalized to a
    /// signed unit step, and returns the seed requests for empty
    /// neighbors that should start draining.
    #[verifier::rlimit(60)]
    #[verifier::spinoff_prover]
    pub fn set_drain_rate(&mut self) -> (seeds: Vec<usize>)
        requires
            old(self).wf(),
        ensures
            final(self).wf(),
            final(self).waters@.len() == old(self).waters@.len(),
            final(self).waters@ == rated_pass(old(self).waters@, old(self).water_hoods@),
            forall|k: int| 0 <= k < old(self).waters@.len()
                ==> #[trigger] final(self).waters@[k]
                    == rated_cell(old(self).waters@, old(self).water_hoods@, k),
            seeds@ == seeds_spec(old(self).waters@, old(self).water_hoods@, old(self).waters@.len() as int),
            forall|t: int| 0 <= t < seeds@.len() ==> (#[trigger] seeds@[t] as int) < old(self).waters@.len(),
            final(self).grounds@ == old(self).grounds@,
            final(self).ground_hoods@ == old(self).ground_hoods@,
            final(self).water_hoods@ == old(self).water_hoods@,
            final(self).pairs@ == old(self).pairs@,
            final(self).next_water_id == old(self).next_water_id,
            final(self).settings == old(self).settings,
    {
        let ghost w0 = self.waters@;
        let ghost hoods0 = self.water_hoods@;
        let n = self.waters.len();
        let mut seeds: Vec<usize> = Vec::new();
        let mut k: usize = 0;
        while k < n
            invariant
                old(self).wf(),
                n == w0.len(),
                w0 == old(self).waters@,
                hoods0 == old(self).water_hoods@,
                self.water_hoods@ == hoods0,
                self.grounds@ == old(self).grounds@,
                self.ground_hoods@ == old(self).ground_hoods@,
                self.pairs@ == old(self).pairs@,
                self.next_water_id == old(self).next_water_id,
                self.settings == old(self).settings,
                self.waters@.len() == n,
                k <= n,
                forall|t: int| 0 <= t < k
                    ==> #[trigger] self.waters@[t] == rated_cell(w0, hoods0, t),
                forall|t: int| k <= t < n ==> #[trigger] self.waters@[t] == w0[t],
                seeds@ == seeds_spec(w0, hoods0, k as int),
                forall|t: int| 0 <= t < seeds@.len() ==> (#[trigger] seeds@[t] as int) < n,
            decreases n - k,
        {
            let w = self.waters[k];
            if w.draining {
                let h = self.water_hoods[k];
                proof {
                    assert(hoods0.len() == w0.len());
                    // the drain sum reads only heights and volumes, which this
                    // pass never changes
                    assert forall|link: Option<usize>|
                        link_contrib(self.waters@, k as int, link) == link_contrib(w0, k as int, link)
                        && link_seed(self.waters@, k as int, link) == link_seed(w0, k as int, link) by {
                        if let Some(j) = link {
                            if 0 <= (j as int) < n {
                                assert(self.waters@[j as int].cell == w0[j as int].cell);
                                assert(self.waters@[j as int].water.amount == w0[j as int].water.amount);
                                assert(self.waters@[k as int].cell == w0[k as int].cell);
                            }
                        }
                    }
                }
                let (c1, s1) = eval_link(&self.waters, k, h.left_neighbor);
                let (c2, s2) = eval_link(&self.waters, k, h.right_neighbor);
                let (c3, s3) = eval_link(&self.waters, k, h.front_neighbor);
                let (c4, s4) = eval_link(&self.waters, k, h.back_neighbor);
                let sum = c1 + c2 + c3 + c4;
                let rate: i64 = if sum == 0 {
                    0
                } else if sum < 0 {
                    -1
                } else {
                    1
                };
                proof {
                    assert(sum == drain_sum(w0, hoods0, k as int));
                    assert(rate as int == unit_rate(drain_sum(w0, hoods0, k as int)));
                }
                self.waters.set(k, WaterCell {
                    water: crate::water::Water { amount: w.water.amount, rate },
                    ..w
                });
                if let Some(j) = s1 {
                    seeds.push(j);
                }
                if let Some(j) = s2 {
                    seeds.push(j);
                }
                if let Some(j) = s3 {
                    seeds.push(j);
                }
                if let Some(j) = s4 {
                    seeds.push(j);
                }
                proof {
                    assert(seeds@ =~= seeds_spec(w0, hoods0, k as int) + cell_seeds(w0, hoods0, k as int));
                    assert(seeds@ =~= seeds_spec(w0, hoods0, k + 1 as int));
                }
            } else {
                proof {
                    assert(seeds@ =~= seeds_spec(w0, hoods0, k + 1 as int));
                }
            }
            k = k + 1;
        }
        proof {
            assert(water_view(self.waters@) =~= water_view(old(self).waters@));
            assert(self.wf());
            assert(self.waters@ =~= rated_pass(old(self).waters@, old(self).water_hoods@));
        }
        seeds
    }

    /// Applies the computed flow: every draining cell's volume and height
    /// move together by one unit step of `WATER_SPEED`. A move that would
    /// leave the height bound is skipped.
    pub fn drain_water(&mut self)
        requires
            old(self).wf(),
        ensures
            final(self).wf(),
            final(self).waters@.len() == old(self).waters@.len(),
            final(self).waters@ == drained_pass(old(self).waters@),
            forall|k: int| 0 <= k < old(self).waters@.len()
                ==> #[trigger] final(self).waters@[k] == drained_cell(old(self).waters@[k]),
            final(self).grounds@ == old(self).grounds@,
            final(self).ground_hoods@ == old(self).ground_hoods@,
            final(self).water_hoods@ == old(self).water_hoods@,
            final(self).pairs@ == old(self).pairs@,
            final(self).next_water_id == old(self).next_water_id,
            final(self).settings == old(self).settings,
    {
        let n = self.waters.len();
        let mut k: usize = 0;
        while k < n
            invariant
                old(self).wf(),
                self.grounds@ == old(self).grounds@,
                self.ground_hoods@ == old(self).ground_hoods@,
                self.water_hoods@ == old(self).water_hoods@,
                self.pairs@ == old(self).pairs@,
                self.next_water_id == old(self).next_water_id,
                self.settings == old(self).settings,
                n == old(self).waters@.len(),
                self.waters@.len() == n,
                k <= n,
                forall|t: int| 0 <= t < k
                    ==> #[trigger] self.waters@[t] == drained_cell(old(self).waters@[t]),
                forall|t: int| k <= t < n ==> #[trigger] self.waters@[t] == old(self).waters@[t],
            decreases n - k,
        {
            let w = self.waters[k];
            if w.draining {
                proof {
                    assert(-1 <= w.water.rate <= 1);
                }
                let step = w.water.rate * WATER_SPEED;
                let new_layer = w.cell.layer + step;
                let new_amount = w.water.amount + step;
                if -HEIGHT_LIMIT <= new_layer && new_layer <= HEIGHT_LIMIT
                    && -HEIGHT_LIMIT <= new_amount && new_amount <= HEIGHT_LIMIT {
                    self.waters.set(k, WaterCell {
                        cell: GridCell { row: w.cell.row, col: w.cell.col, layer: new_layer },
                        water: crate::water::Water { amount: new_amount, rate: w.water.rate },
                        id: w.id,
                        draining: w.draining,
                    });
                }
            }
            k = k + 1;
        }
        proof {
            crate::neighborhood::lemma_unique_coords_same(
                water_view(old(self).waters@), water_view(self.waters@));
            crate::neighborhood::lemma_hoods_ok_same(
                water_view(old(self).waters@), water_view(self.waters@), self.water_hoods@);
            assert(self.wf());
            assert(self.waters@ =~= drained_pass(old(self).waters@));
        }
    }

    /// The drain-out clamp: a cell whose volume fell below zero is set
    /// back to zero volume and stops draining until re-triggered.
    pub fn remove_draining(&mut self)
        requires
            old(self).wf(),
        ensures
            final(self).wf(),
            final(self).waters@.len() == old(self).waters@.len(),
            final(self).waters@ == clamped_pass(old(self).waters@),
            forall|k: int| 0 <= k < old(self).waters@.len()
                ==> #[trigger] final(self).waters@[k] == clamped_cell(old(self).waters@[k]),
            final(self).grounds@ == old(self).grounds@,
            final(self).ground_hoods@ == old(self).ground_hoods@,
            final(self).water_hoods@ == old(self).water_hoods@,
            final(self).pairs@ == old(self).pairs@,
            final(self).next_water_id == old(self).next_water_id,
            final(self).settings == old(self).settings,
    {
        let n = self.waters.len();
        let mut k: usize = 0;
        while k < n
            invariant
                old(self).wf(),
                self.grounds@ == old(self).grounds@,
                self.ground_hoods@ == old(self).ground_hoods@,
                self.water_hoods@ == old(self).water_hoods@,
                self.pairs@ == old(self).pairs@,
                self.next_water_id == old(self).next_water_id,
                self.settings == old(self).settings,
                n == old(self).waters@.len(),
                self.waters@.len() == n,
                k <= n,
                forall|t: int| 0 <= t < k
                    ==> #[trigger] self.waters@[t] == clamped_cell(old(self).waters@[t]),
                forall|t: int| k <= t < n ==> #[trigger] self.waters@[t] == old(self).waters@[t],
            decreases n - k,
        {
            let w = self.waters[k];
            if w.water.amount < 0 {
                self.waters.set(k, WaterCell {
                    water: crate::water::Water { amount: 0, rate: 0 },
                    draining: false,
                    ..w
                });
            }
            k = k + 1;
        }
        proof {
            assert(water_view(self.waters@) =~= water_view(old(self).waters@));
            assert(self.wf());
            assert(self.waters@ =~= clamped_pass(old(self).waters@));
        }
    }
}

} // verus!
