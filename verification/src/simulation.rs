//! The simulation state: the terrain and water populations with their
//! neighborhood indexes, the pairings between terrain and water cells,
//! and the most recently applied map settings. All engine passes run over
//! this state once per tick, in a fixed order that preserves causality.

use vstd::prelude::*;

use crate::grid::{GridCell, CELL_HEIGHT, HEIGHT_LIMIT};
use crate::ground::CheckGroundForDraining;
use crate::map::{CurrentMapSettings, MapError, MapGenerationSettings, generate_cells, generated_cell};
use crate::neighborhood::{Neighborhood, connect_grid_cells, hoods_ok, unique_coords};
use crate::pair::Pair;
use crate::shifting::{GroundCell, ground_view, heights_bounded, settled};
use crate::water::{WaterCell, water_view, waters_bounded, water_ids_unique};

verus! {

/// The whole simulation state.
pub struct Simulation {
    pub grounds: Vec<GroundCell>,
    pub ground_hoods: Vec<Neighborhood>,
    pub waters: Vec<WaterCell>,
    pub water_hoods: Vec<Neighborhood>,
    pub pairs: Vec<Pair>,
    pub next_water_id: u64,
    pub settings: CurrentMapSettings,
}

impl Simulation {
    /// Well-formedness of the simulation state: both neighborhood indexes
    /// are correct for their populations, coordinates are unique within
    /// each population, all heights are bounded, water identifiers are
    /// fresh and unique, and pairs align one-to-one with water cells —
    /// pair `k` binds water cell `k` to a live terrain cell at the same
    /// grid coordinates, and no two pairs share a terrain cell.
    pub open spec fn wf(self) -> bool {
        &&& hoods_ok(ground_view(self.grounds@), self.ground_hoods@)
        &&& unique_coords(ground_view(self.grounds@))
        &&& heights_bounded(self.grounds@)
        &&& hoods_ok(water_view(self.waters@), self.water_hoods@)
        &&& unique_coords(water_view(self.waters@))
        &&& waters_bounded(self.waters@)
        &&& water_ids_unique(self.waters@)
        &&& forall|k: int| 0 <= k < self.waters@.len()
            ==> (#[trigger] self.waters@[k]).id < self.next_water_id
        &&& self.pairs@.len() == self.waters@.len()
        &&& forall|k: int| 0 <= k < self.pairs@.len() ==> {
            &&& (#[trigger] self.pairs@[k]).water == self.waters@[k].id
            &&& (self.pairs@[k].ground as int) < self.grounds@.len()
            &&& self.waters@[k].cell.row == self.grounds@[self.pairs@[k].ground as int].cell.row
            &&& self.waters@[k].cell.col == self.grounds@[self.pairs@[k].ground as int].cell.col
        }
        &&& forall|a: int, b: int|
            0 <= a < self.pairs@.len() && 0 <= b < self.pairs@.len() && a != b
                ==> (#[trigger] self.pairs@[a]).ground != (#[trigger] self.pairs@[b]).ground
    }

    /// Whether some pair binds the terrain cell at `ground`.
    pub open spec fn has_pair_for(self, ground: int) -> bool {
        exists|k: int| 0 <= k < self.pairs@.len() && (#[trigger] self.pairs@[k]).ground as int == ground
    }

    /// An empty simulation with default settings.
    pub fn new() -> (sim: Simulation)
        ensures
            sim.wf(),
            sim.grounds@.len() == 0,
            sim.waters@.len() == 0,
            sim.pairs@.len() == 0,
            sim.next_water_id == 0,
            sim.settings.value.size == crate::map::MAP_SIZE_DEFAULT,
            sim.settings.value.terrain == crate::map::TerrainSettings::FLAT,
    {
        Simulation {
            grounds: Vec::new(),
            ground_hoods: Vec::new(),
            waters: Vec::new(),
            water_hoods: Vec::new(),
            pairs: Vec::new(),
            next_water_id: 0,
            settings: CurrentMapSettings::default(),
        }
    }

    /// Removes every cell of both populations and every pair. The stored
    /// settings are kept.
    pub fn clear_map(&mut self)
        ensures
            final(self).wf(),
            final(self).grounds@.len() == 0,
            final(self).waters@.len() == 0,
            final(self).pairs@.len() == 0,
            final(self).settings == old(self).settings,
            final(self).next_water_id == old(self).next_water_id,
    {
        self.grounds = Vec::new();
        self.ground_hoods = Vec::new();
        self.waters = Vec::new();
        self.water_hoods = Vec::new();
        self.pairs = Vec::new();
    }

    /// Stores the settings of the most recent generation request, so that
    /// persistence can save them later.
    pub fn store_map(&mut self, settings: &MapGenerationSettings)
        ensures
            final(self).settings.value == *settings,
            final(self).grounds@ == old(self).grounds@,
            final(self).ground_hoods@ == old(self).ground_hoods@,
            final(self).waters@ == old(self).waters@,
            final(self).water_hoods@ == old(self).water_hoods@,
            final(self).pairs@ == old(self).pairs@,
            final(self).next_water_id == old(self).next_water_id,
            old(self).wf() ==> final(self).wf(),
    {
        self.settings = CurrentMapSettings { value: *settings };
    }

    /// Generates a fresh map from `settings`: a square grid of terrain
    /// cells whose per-cell levels are supplied by the caller (all zero
    /// for flat terrain, an outside curve otherwise), with a freshly
    /// built adjacency index, no water, and the settings stored. On
    /// rejection the previous state is unchanged.
    pub fn generate_map(&mut self, settings: &MapGenerationSettings, levels: &Vec<i32>) -> (r: Result<(), MapError>)
        ensures
            r matches Err(e) ==> *final(self) == *old(self)
                && (e == MapError::InvalidSize <==> (settings.size < 0 || settings.size > crate::map::MAP_SIZE_LIMIT)),
            r is Ok <==> (0 <= settings.size <= crate::map::MAP_SIZE_LIMIT
                && levels@.len() == settings.size * settings.size),
            r is Ok ==> {
                &&& final(self).wf()
                &&& final(self).grounds@.len() == settings.size * settings.size
                &&& forall|i: int, j: int| 0 <= i < settings.size && 0 <= j < settings.size
                    ==> (#[trigger] final(self).grounds@[i * settings.size + j]).cell
                            == generated_cell(i, j, levels@[i * settings.size + j] as int)
                        && final(self).grounds@[i * settings.size + j].rendered
                            == generated_cell(i, j, levels@[i * settings.size + j] as int).layer
                        && final(self).grounds@[i * settings.size + j].shifting is None
                &&& settled(final(self).grounds@)
                &&& final(self).waters@.len() == 0
                &&& final(self).pairs@.len() == 0
                &&& final(self).next_water_id == old(self).next_water_id
                &&& final(self).settings.value == *settings
            },
    {
        let cells = match generate_cells(settings.size, levels) {
            Ok(cells) => cells,
            Err(e) => {
                return Err(e);
            },
        };
        let hoods = connect_grid_cells(&cells);
        let mut grounds: Vec<GroundCell> = Vec::new();
        let mut k: usize = 0;
        let n = cells.len();
        while k < n
            invariant
                n == cells@.len(),
                k <= n,
                grounds@.len() == k,
                forall|t: int| 0 <= t < k ==> (#[trigger] grounds@[t]).cell == cells@[t]
                    && grounds@[t].rendered == cells@[t].layer
                    && grounds@[t].shifting is None,
            decreases n - k,
        {
            let c = cells[k];
            grounds.push(GroundCell { cell: c, rendered: c.layer, shifting: None });
            k = k + 1;
        }
        proof {
            assert(ground_view(grounds@) =~= cells@);
            let size = settings.size as int;
            assert forall|i: int, j: int| 0 <= i < size && 0 <= j < size
                implies (#[trigger] cells@[i * size + j]).row == i
                    && cells@[i * size + j].col == j by {
                assert(cells@[i * size + j] == generated_cell(i, j, levels@[i * size + j] as int));
            }
            crate::map::lemma_generated_unique(cells@, size);
            assert(heights_bounded(grounds@)) by {
                assert(forall|t: int| 0 <= t < grounds@.len()
                    ==> (#[trigger] grounds@[t]).cell.layer == cells@[t].layer
                        && grounds@[t].rendered == cells@[t].layer);
            }
            assert(settled(grounds@));
        }
        self.grounds = grounds;
        self.ground_hoods = hoods;
        self.waters = Vec::new();
        self.water_hoods = Vec::new();
        self.pairs = Vec::new();
        self.settings = CurrentMapSettings { value: *settings };
        proof {
            assert(self.wf());
            let size = settings.size as int;
            assert forall|i: int, j: int| 0 <= i < size && 0 <= j < size
                implies (#[trigger] self.grounds@[i * size + j]).cell
                        == generated_cell(i, j, levels@[i * size + j] as int)
                    && self.grounds@[i * size + j].rendered
                        == generated_cell(i, j, levels@[i * size + j] as int).layer
                    && self.grounds@[i * size + j].shifting is None by {
                assert(0 <= i * size + j < size * size) by (nonlinear_arith)
                    requires 0 <= i < size, 0 <= j < size,
                    ;
                assert(cells@[i * size + j] == generated_cell(i, j, levels@[i * size + j] as int));
            }
        }
        Ok(())
    }

    /// The index of the pair that binds the terrain cell at `ground`, if
    /// one exists.
    pub fn find_pair(&self, ground: usize) -> (r: Option<usize>)
        requires
            self.wf(),
        ensures
            r matches Some(k) ==> (k as int) < self.pairs@.len()
                && self.pairs@[k as int].ground == ground
                && crate::pair::pair_for(self.pairs@, ground) == Some(k as int),
            r is None ==> !self.has_pair_for(ground as int)
                && crate::pair::pair_for(self.pairs@, ground) is None,
    {
        let n = self.pairs.len();
        let mut k: usize = 0;
        while k < n
            invariant
                n == self.pairs@.len(),
                k <= n,
                forall|t: int| 0 <= t < k ==> (#[trigger] self.pairs@[t]).ground != ground,
            decreases n - k,
        {
            if self.pairs[k].ground == ground {
                proof {
                    crate::pair::lemma_pair_for_at(self.pairs@, ground, k as int);
                }
                return Some(k);
            }
            k = k + 1;
        }
        proof {
            crate::pair::lemma_pair_for_at(self.pairs@, ground, n as int);
            assert(!self.has_pair_for(ground as int)) by {
                if self.has_pair_for(ground as int) {
                    let t = choose|t: int| 0 <= t < self.pairs@.len()
                        && (#[trigger] self.pairs@[t]).ground as int == ground;
                    assert(self.pairs@[t].ground != ground);
                }
            }
        }
        None
    }

    /// The water cell that a spawn above terrain cell `ground` creates:
    /// one level unit of volume, sitting one level unit above the ground.
    pub open spec fn spawned_water(self, ground: int) -> WaterCell {
        WaterCell {
            id: self.next_water_id,
            cell: GridCell {
                row: self.grounds@[ground].cell.row,
                col: self.grounds@[ground].cell.col,
                layer: (self.grounds@[ground].rendered + CELL_HEIGHT) as i64,
            },
            water: crate::water::Water { amount: CELL_HEIGHT, rate: 0 },
            draining: false,
        }
    }

    /// Spawns a water cell above the terrain cell at `ground`, registers
    /// the pair, and rebuilds the water adjacency. The spawn happens only
    /// when the terrain cell has no live water yet (pairing stays unique)
    /// and the engine's height and identifier bounds leave room.
    pub fn create_water(&mut self, ground: usize) -> (created: bool)
        requires
            old(self).wf(),
            (ground as int) < old(self).grounds@.len(),
        ensures
            final(self).wf(),
            created <==> (!old(self).has_pair_for(ground as int)
                && old(self).grounds@[ground as int].rendered + CELL_HEIGHT <= HEIGHT_LIMIT
                && old(self).next_water_id < u64::MAX),
            !created ==> *final(self) == *old(self),
            created ==> {
                &&& final(self).waters@ == old(self).waters@.push(old(self).spawned_water(ground as int))
                &&& final(self).pairs@ == old(self).pairs@.push(Pair { ground, water: old(self).next_water_id })
                &&& final(self).next_water_id == old(self).next_water_id + 1
                &&& final(self).grounds@ == old(self).grounds@
                &&& final(self).ground_hoods@ == old(self).ground_hoods@
                &&& final(self).settings == old(self).settings
            },
    {
        if self.find_pair(ground).is_some() {
            proof {
                let k = choose|k: int| 0 <= k < self.pairs@.len()
                    && (#[trigger] self.pairs@[k]).ground == ground;
            }
            return false;
        }
        let g = self.grounds[ground];
        if g.rendered > HEIGHT_LIMIT - CELL_HEIGHT {
            return false;
        }
        if self.next_water_id == u64::MAX {
            return false;
        }
        let ghost old_self = *self;
        let spawned = WaterCell {
            id: self.next_water_id,
            cell: GridCell { row: g.cell.row, col: g.cell.col, layer: g.rendered + CELL_HEIGHT },
            water: crate::water::Water { amount: CELL_HEIGHT, rate: 0 },
            draining: false,
        };
        self.waters.push(spawned);
        self.pairs.push(Pair { ground, water: self.next_water_id });
        self.next_water_id = self.next_water_id + 1;
        let hoods = connect_grid_cells(&water_cells(&self.waters));
        self.water_hoods = hoods;
        proof {
            let ws = self.waters@;
            let n = ws.len() as int;
            assert(ws[n - 1] == spawned);
            // the new cell's coordinates are not used by any other water cell:
            // every existing water cell shares coordinates with its paired
            // terrain cell, and no pair bound this terrain cell
            assert forall|a: int, b: int|
                0 <= a < n && 0 <= b < n && a != b
                implies !(#[trigger] water_view(ws)[a]).same_cell(#[trigger] water_view(ws)[b]) by {
                if a == n - 1 || b == n - 1 {
                    let e = if a == n - 1 { b } else { a };
                    if e != n - 1 {
                        let pg = old_self.pairs@[e].ground as int;
                        assert(old_self.waters@[e].cell.row == old_self.grounds@[pg].cell.row);
                        assert(old_self.waters@[e].cell.col == old_self.grounds@[pg].cell.col);
                        assert(pg != ground) by {
                            if pg == ground {
                                assert(old_self.has_pair_for(ground as int));
                            }
                        }
                        assert(ground_view(old_self.grounds@)[pg] == old_self.grounds@[pg].cell);
                        assert(ground_view(old_self.grounds@)[ground as int]
                            == old_self.grounds@[ground as int].cell);
                        assert(!old_self.grounds@[pg].cell.same_cell(old_self.grounds@[ground as int].cell));
                        assert(ws[e] == old_self.waters@[e]);
                    }
                } else {
                    assert(ws[a] == old_self.waters@[a]);
                    assert(ws[b] == old_self.waters@[b]);
                    assert(!(old_self.waters@[a].cell).same_cell(old_self.waters@[b].cell)) by {
                        assert(water_view(old_self.waters@)[a] == old_self.waters@[a].cell);
                        assert(water_view(old_self.waters@)[b] == old_self.waters@[b].cell);
                    }
                }
            }
            assert(unique_coords(water_view(ws)));
            assert forall|a: int, b: int|
                0 <= a < self.pairs@.len() && 0 <= b < self.pairs@.len() && a != b
                implies (#[trigger] self.pairs@[a]).ground != (#[trigger] self.pairs@[b]).ground by {
                if a == n - 1 || b == n - 1 {
                    let e = if a == n - 1 { b } else { a };
                    if e != n - 1 {
                        assert(self.pairs@[e] == old_self.pairs@[e]);
                        assert(old_self.pairs@[e].ground != ground) by {
                            if old_self.pairs@[e].ground == ground {
                                assert(old_self.has_pair_for(ground as int));
                            }
                        }
                    }
                }
            }
            assert(self.wf());
        }
        true
    }

    /// Looks up the terrain cell at the request's coordinates and decides
    /// whether water should be spawned: only when that cell's rendered
    /// height sits strictly below the requested water level.
    pub fn ground_check(&self, check: &CheckGroundForDraining) -> (r: Option<usize>)
        requires
            self.wf(),
        ensures
            r matches Some(i) ==> (i as int) < self.grounds@.len()
                && self.grounds@[i as int].cell.row == check.row
                && self.grounds@[i as int].cell.col == check.col
                && self.grounds@[i as int].rendered < check.water_level,
            r is None ==> forall|i: int|
                0 <= i < self.grounds@.len()
                    && (#[trigger] self.grounds@[i]).cell.row == check.row
                    && self.grounds@[i].cell.col == check.col
                ==> self.grounds@[i].rendered >= check.water_level,
    {
        let n = self.grounds.len();
        let mut i: usize = 0;
        while i < n
            invariant
                n == self.grounds@.len(),
                i <= n,
                forall|t: int| 0 <= t < i
                    && (#[trigger] self.grounds@[t]).cell.row == check.row
                    && self.grounds@[t].cell.col == check.col
                    ==> self.grounds@[t].rendered >= check.water_level,
            decreases n - i,
        {
            let g = self.grounds[i];
            if g.cell.row == check.row && g.cell.col == check.col && g.rendered < check.water_level {
                return Some(i);
            }
            i = i + 1;
        }
        None
    }

    /// Probes the ground at the request's coordinates and spawns water
    /// above it when it sits below the requested water level: the spawn
    /// happens exactly when a terrain cell at `(row, col)` has its
    /// rendered height strictly below the requested level, no pair binds
    /// it yet, and the engine's height and identifier bounds leave room.
    pub fn check_ground_for_draining(&mut self, check: &CheckGroundForDraining) -> (spawned: bool)
        requires
            old(self).wf(),
        ensures
            final(self).wf(),
            spawned <==> exists|i: int| 0 <= i < old(self).grounds@.len()
                && (#[trigger] old(self).grounds@[i]).cell.row == check.row
                && old(self).grounds@[i].cell.col == check.col
                && old(self).grounds@[i].rendered < check.water_level
                && !old(self).has_pair_for(i)
                && old(self).grounds@[i].rendered + CELL_HEIGHT <= HEIGHT_LIMIT
                && old(self).next_water_id < u64::MAX,
            !spawned ==> *final(self) == *old(self),
            spawned ==> exists|i: int| 0 <= i < old(self).grounds@.len()
                && (#[trigger] old(self).grounds@[i]).cell.row == check.row
                && old(self).grounds@[i].cell.col == check.col
                && old(self).grounds@[i].rendered < check.water_level
                && final(self).waters@ == old(self).waters@.push(old(self).spawned_water(i))
                && final(self).pairs@ == old(self).pairs@.push((Pair {
                    ground: i as usize,
                    water: old(self).next_water_id,
                }))
                && final(self).next_water_id == old(self).next_water_id + 1
                && final(self).grounds@ == old(self).grounds@
                && final(self).ground_hoods@ == old(self).ground_hoods@
                && final(self).settings == old(self).settings,
    {
        let ghost old_self = *self;
        match self.ground_check(check) {
            Some(i) => {
                let created = self.create_water(i);
                proof {
                    let gi = i as int;
                    if created {
                        assert(0 <= gi < old_self.grounds@.len()
                            && old_self.grounds@[gi].cell.row == check.row
                            && old_self.grounds@[gi].cell.col == check.col
                            && old_self.grounds@[gi].rendered < check.water_level
                            && !old_self.has_pair_for(gi)
                            && old_self.grounds@[gi].rendered + CELL_HEIGHT <= HEIGHT_LIMIT
                            && old_self.next_water_id < u64::MAX);
                    } else {
                        // any other cell at these coordinates is this cell, so no
                        // witness for a spawn exists
                        assert forall|j: int|
                            !(0 <= j < old_self.grounds@.len()
                                && (#[trigger] old_self.grounds@[j]).cell.row == check.row
                                && old_self.grounds@[j].cell.col == check.col
                                && old_self.grounds@[j].rendered < check.water_level
                                && !old_self.has_pair_for(j)
                                && old_self.grounds@[j].rendered + CELL_HEIGHT <= HEIGHT_LIMIT
                                && old_self.next_water_id < u64::MAX) by {
                            if 0 <= j < old_self.grounds@.len()
                                && old_self.grounds@[j].cell.row == check.row
                                && old_self.grounds@[j].cell.col == check.col {
                                assert(ground_view(old_self.grounds@)[j]
                                    == old_self.grounds@[j].cell);
                                assert(ground_view(old_self.grounds@)[gi]
                                    == old_self.grounds@[gi].cell);
                                if j != gi {
                                    assert(!old_self.grounds@[j].cell.same_cell(
                                        old_self.grounds@[gi].cell));
                                }
                                assert(j == gi);
                            }
                        }
                    }
                }
                created
            },
            None => {
                proof {
                    assert forall|j: int|
                        !(0 <= j < old_self.grounds@.len()
                            && (#[trigger] old_self.grounds@[j]).cell.row == check.row
                            && old_self.grounds@[j].cell.col == check.col
                            && old_self.grounds@[j].rendered < check.water_level
                            && !old_self.has_pair_for(j)
                            && old_self.grounds@[j].rendered + CELL_HEIGHT <= HEIGHT_LIMIT
                            && old_self.next_water_id < u64::MAX) by {
                        if 0 <= j < old_self.grounds@.len()
                            && old_self.grounds@[j].cell.row == check.row
                            && old_self.grounds@[j].cell.col == check.col {
                            assert(old_self.grounds@[j].rendered >= check.water_level);
                        }
                    }
                }
                false
            },
        }
    }

    /// Moves the water cell at `index` one level step up or down, with
    /// its volume unchanged — the vertical shift that follows a completed
    /// terrain shift underneath it. The move is skipped if it would leave
    /// the height bound.
    pub fn shift_water(&mut self, index: usize, upward: bool)
        requires
            old(self).wf(),
            (index as int) < old(self).waters@.len(),
        ensures
            final(self).wf(),
            final(self).waters@.len() == old(self).waters@.len(),
            final(self).waters@ == old(self).waters@.update(
                index as int,
                crate::water::shifted_water(old(self).waters@[index as int], upward),
            ),
            final(self).grounds@ == old(self).grounds@,
            final(self).ground_hoods@ == old(self).ground_hoods@,
            final(self).water_hoods@ == old(self).water_hoods@,
            final(self).pairs@ == old(self).pairs@,
            final(self).next_water_id == old(self).next_water_id,
            final(self).settings == old(self).settings,
    {
        let w = self.waters[index];
        let moved = if upward { w.cell.layer + CELL_HEIGHT } else { w.cell.layer - CELL_HEIGHT };
        if -HEIGHT_LIMIT <= moved && moved <= HEIGHT_LIMIT {
            self.waters.set(index, WaterCell {
                id: w.id,
                cell: GridCell { row: w.cell.row, col: w.cell.col, layer: moved },
                water: w.water,
                draining: w.draining,
            });
            proof {
                crate::neighborhood::lemma_unique_coords_same(
                    water_view(old(self).waters@), water_view(self.waters@));
                crate::neighborhood::lemma_hoods_ok_same(
                    water_view(old(self).waters@), water_view(self.waters@), self.water_hoods@);
            }
        } else {
            proof {
                assert(self.waters@ =~= old(self).waters@.update(
                    index as int,
                    crate::water::shifted_water(old(self).waters@[index as int], upward),
                ));
            }
        }
    }

    /// Answers a completed terrain shift: if the terrain cell at `ground`
    /// has a paired water cell, that water cell moves one level step in
    /// the same direction.
    pub fn try_shift_water(&mut self, ground: usize, shifting_upward: bool) -> (found: bool)
        requires
            old(self).wf(),
        ensures
            final(self).wf(),
            found <==> old(self).has_pair_for(ground as int),
            found <==> crate::pair::pair_for(old(self).pairs@, ground) is Some,
            !found ==> *final(self) == *old(self),
            final(self).waters@ == crate::water::waters_after_event(
                old(self).waters@, old(self).pairs@, ground, shifting_upward),
            found ==> ({
                let k = crate::pair::pair_for(old(self).pairs@, ground)->0;
                final(self).waters@ == old(self).waters@.update(
                    k,
                    crate::water::shifted_water(old(self).waters@[k], shifting_upward),
                )
            }),
            final(self).grounds@ == old(self).grounds@,
            final(self).ground_hoods@ == old(self).ground_hoods@,
            final(self).water_hoods@ == old(self).water_hoods@,
            final(self).pairs@ == old(self).pairs@,
            final(self).waters@.len() == old(self).waters@.len(),
            final(self).next_water_id == old(self).next_water_id,
            final(self).settings == old(self).settings,
    {
        match self.find_pair(ground) {
            Some(k) => {
                proof {
                    assert(old(self).has_pair_for(ground as int)) by {
                        assert(old(self).pairs@[k as int].ground as int == ground);
                    }
                }
                self.shift_water(k, shifting_upward);
                true
            },
            None => false,
        }
    }

    /// A user-triggered fill: if the terrain cell at `ground` has a
    /// paired water cell, that cell gains one level unit of volume and
    /// height and becomes eligible for draining again; otherwise a spawn
    /// is requested instead.
    pub fn manually_increase_water(&mut self, ground: usize) -> (increased: bool)
        requires
            old(self).wf(),
            (ground as int) < old(self).grounds@.len(),
        ensures
            final(self).wf(),
            increased <==> old(self).has_pair_for(ground as int),
            final(self).grounds@ == old(self).grounds@,
            final(self).ground_hoods@ == old(self).ground_hoods@,
            final(self).settings == old(self).settings,
            increased ==> ({
                let pf = crate::pair::pair_for(old(self).pairs@, ground);
                &&& pf is Some
                &&& final(self).waters@ == old(self).waters@.update(
                    pf->0,
                    crate::water::filled_water(old(self).waters@[pf->0]),
                )
                &&& final(self).pairs@ == old(self).pairs@
                &&& final(self).water_hoods@ == old(self).water_hoods@
                &&& final(self).next_water_id == old(self).next_water_id
            }),
            !increased ==> {
                &&& !old(self).has_pair_for(ground as int)
                &&& if old(self).grounds@[ground as int].rendered + CELL_HEIGHT <= HEIGHT_LIMIT
                        && old(self).next_water_id < u64::MAX {
                    &&& final(self).waters@
                        == old(self).waters@.push(old(self).spawned_water(ground as int))
                    &&& final(self).pairs@
                        == old(self).pairs@.push((Pair { ground, water: old(self).next_water_id }))
                    &&& final(self).next_water_id == old(self).next_water_id + 1
                } else {
                    *final(self) == *old(self)
                }
            },
    {
        match self.find_pair(ground) {
            Some(k) => {
                proof {
                    assert(old(self).has_pair_for(ground as int)) by {
                        assert(old(self).pairs@[k as int].ground as int == ground);
                    }
                }
                let w = self.waters[k];
                let room = w.cell.layer <= HEIGHT_LIMIT - CELL_HEIGHT
                    && w.water.amount <= HEIGHT_LIMIT - CELL_HEIGHT;
                let new_layer = if room { w.cell.layer + CELL_HEIGHT } else { w.cell.layer };
                let new_amount = if room { w.water.amount + CELL_HEIGHT } else { w.water.amount };
                let new_rate = if w.draining { w.water.rate } else { 0 };
                self.waters.set(k, WaterCell {
                    id: w.id,
                    cell: GridCell { row: w.cell.row, col: w.cell.col, layer: new_layer },
                    water: crate::water::Water { amount: new_amount, rate: new_rate },
                    draining: true,
                });
                proof {
                    crate::neighborhood::lemma_unique_coords_same(
                        water_view(old(self).waters@), water_view(self.waters@));
                    crate::neighborhood::lemma_hoods_ok_same(
                        water_view(old(self).waters@), water_view(self.waters@), self.water_hoods@);
                    assert(self.waters@ =~= old(self).waters@.update(
                        k as int,
                        crate::water::filled_water(old(self).waters@[k as int]),
                    ));
                }
                true
            },
            None => {
                self.create_water(ground);
                false
            },
        }
    }

    /// The despawn sweep: every water cell whose rendered height has
    /// dropped strictly below its paired terrain cell's rendered height
    /// is removed together with its pair, and the water adjacency index
    /// is rebuilt. Runs after leveling, so a cell that drained out this
    /// tick is cleaned up in the same tick.
    pub fn despawn_sweep(&mut self)
        requires
            old(self).wf(),
        ensures
            final(self).wf(),
            final(self).waters@ == crate::water::swept_waters(
                old(self).waters@, old(self).pairs@, old(self).grounds@, old(self).waters@.len() as int),
            final(self).pairs@ == crate::water::swept_pairs(
                old(self).waters@, old(self).pairs@, old(self).grounds@, old(self).waters@.len() as int),
            final(self).grounds@ == old(self).grounds@,
            final(self).ground_hoods@ == old(self).ground_hoods@,
            final(self).next_water_id == old(self).next_water_id,
            final(self).settings == old(self).settings,
    {
        let ghost old_self = *self;
        let n = self.waters.len();
        let mut kept_waters: Vec<WaterCell> = Vec::new();
        let mut kept_pairs: Vec<Pair> = Vec::new();
        let ghost mut src: Seq<int> = Seq::empty();
        let mut k: usize = 0;
        while k < n
            invariant
                old_self.wf(),
                n == old_self.waters@.len(),
                self.waters@ == old_self.waters@,
                self.pairs@ == old_self.pairs@,
                self.grounds@ == old_self.grounds@,
                k <= n,
                kept_waters@ == crate::water::swept_waters(
                    old_self.waters@, old_self.pairs@, old_self.grounds@, k as int),
                kept_pairs@ == crate::water::swept_pairs(
                    old_self.waters@, old_self.pairs@, old_self.grounds@, k as int),
                src.len() == kept_waters@.len(),
                kept_pairs@.len() == kept_waters@.len(),
                forall|m: int| 0 <= m < src.len() ==> 0 <= #[trigger] src[m] < k
                    && kept_waters@[m] == old_self.waters@[src[m]]
                    && kept_pairs@[m] == old_self.pairs@[src[m]],
                forall|m1: int, m2: int| 0 <= m1 < m2 < src.len() ==> #[trigger] src[m1] < #[trigger] src[m2],
            decreases n - k,
        {
            let w = self.waters[k];
            let p = self.pairs[k];
            let g = self.grounds[p.ground];
            if w.cell.layer >= g.rendered {
                kept_waters.push(w);
                kept_pairs.push(p);
                proof {
                    src = src.push(k as int);
                }
            }
            k = k + 1;
        }
        self.waters = kept_waters;
        self.pairs = kept_pairs;
        let hoods = connect_grid_cells(&water_cells(&self.waters));
        self.water_hoods = hoods;
        proof {
            let ws = self.waters@;
            assert forall|a: int, b: int|
                0 <= a < ws.len() && 0 <= b < ws.len() && a != b
                implies !(#[trigger] water_view(ws)[a]).same_cell(#[trigger] water_view(ws)[b]) by {
                assert(ws[a] == old_self.waters@[src[a]]);
                assert(ws[b] == old_self.waters@[src[b]]);
                assert(src[a] != src[b]) by {
                    if a < b {
                        assert(src[a] < src[b]);
                    } else {
                        assert(src[b] < src[a]);
                    }
                }
                assert(water_view(old_self.waters@)[src[a]] == old_self.waters@[src[a]].cell);
                assert(water_view(old_self.waters@)[src[b]] == old_self.waters@[src[b]].cell);
            }
            assert forall|a: int, b: int|
                0 <= a < ws.len() && 0 <= b < ws.len() && a != b
                implies (#[trigger] ws[a]).id != (#[trigger] ws[b]).id by {
                assert(src[a] != src[b]) by {
                    if a < b {
                        assert(src[a] < src[b]);
                    } else {
                        assert(src[b] < src[a]);
                    }
                }
            }
            assert forall|a: int, b: int|
                0 <= a < self.pairs@.len() && 0 <= b < self.pairs@.len() && a != b
                implies (#[trigger] self.pairs@[a]).ground != (#[trigger] self.pairs@[b]).ground by {
                assert(src[a] != src[b]) by {
                    if a < b {
                        assert(src[a] < src[b]);
                    } else {
                        assert(src[b] < src[a]);
                    }
                }
            }
            assert(waters_bounded(ws)) by {
                assert(forall|a: int| 0 <= a < ws.len()
                    ==> #[trigger] ws[a] == old_self.waters@[src[a]]);
            }
            assert forall|a: int| 0 <= a < ws.len()
                implies (#[trigger] ws[a]).id < self.next_water_id by {
                assert(ws[a] == old_self.waters@[src[a]]);
            }
            assert forall|a: int| 0 <= a < self.pairs@.len() implies {
                &&& (#[trigger] self.pairs@[a]).water == ws[a].id
                &&& (self.pairs@[a].ground as int) < self.grounds@.len()
                &&& ws[a].cell.row == self.grounds@[self.pairs@[a].ground as int].cell.row
                &&& ws[a].cell.col == self.grounds@[self.pairs@[a].ground as int].cell.col
            } by {
                assert(ws[a] == old_self.waters@[src[a]]);
                assert(self.pairs@[a] == old_self.pairs@[src[a]]);
            }
            assert(self.wf());
        }
    }

    /// Requests a one-step shift of the selected terrain cell: its target
    /// layer moves by one grid step in the chosen direction and the
    /// animation marker is attached. A request that would leave the
    /// height bound is ignored.
    pub fn shift_selected_cell(&mut self, index: usize, up: bool) -> (applied: bool)
        requires
            old(self).wf(),
            (index as int) < old(self).grounds@.len(),
        ensures
            final(self).wf(),
            applied <==> -HEIGHT_LIMIT
                <= old(self).grounds@[index as int].cell.layer
                    + (if up { CELL_HEIGHT as int } else { -CELL_HEIGHT as int })
                <= HEIGHT_LIMIT,
            !applied ==> *final(self) == *old(self),
            applied ==> {
                &&& final(self).grounds@.len() == old(self).grounds@.len()
                &&& final(self).grounds@[index as int].cell.layer
                    == old(self).grounds@[index as int].cell.layer
                        + (if up { CELL_HEIGHT as int } else { -CELL_HEIGHT as int })
                &&& final(self).grounds@[index as int].shifting
                    == Some(crate::shifting::Shifting { up })
                &&& final(self).grounds@[index as int].rendered
                    == old(self).grounds@[index as int].rendered
                &&& forall|k: int| 0 <= k < old(self).grounds@.len() && k != index
                    ==> final(self).grounds@[k] == old(self).grounds@[k]
                &&& final(self).waters@ == old(self).waters@
                &&& final(self).pairs@ == old(self).pairs@
            },
    {
        let g = self.grounds[index];
        let moved = if up { g.cell.layer + CELL_HEIGHT } else { g.cell.layer - CELL_HEIGHT };
        if -HEIGHT_LIMIT <= moved && moved <= HEIGHT_LIMIT {
            crate::shifting::shift_selected_cell(&mut self.grounds, index, up);
            proof {
                crate::neighborhood::lemma_unique_coords_same(
                    ground_view(old(self).grounds@), ground_view(self.grounds@));
                crate::neighborhood::lemma_hoods_ok_same(
                    ground_view(old(self).grounds@), ground_view(self.grounds@), self.ground_hoods@);
                assert forall|k: int| 0 <= k < self.pairs@.len() implies {
                    &&& (#[trigger] self.pairs@[k]).water == self.waters@[k].id
                    &&& (self.pairs@[k].ground as int) < self.grounds@.len()
                    &&& self.waters@[k].cell.row == self.grounds@[self.pairs@[k].ground as int].cell.row
                    &&& self.waters@[k].cell.col == self.grounds@[self.pairs@[k].ground as int].cell.col
                } by {
                    assert(self.grounds@[self.pairs@[k].ground as int].cell.row
                        == old(self).grounds@[self.pairs@[k].ground as int].cell.row);
                    assert(self.grounds@[self.pairs@[k].ground as int].cell.col
                        == old(self).grounds@[self.pairs@[k].ground as int].cell.col);
                }
                assert(self.wf());
            }
            true
        } else {
            false
        }
    }

    /// Sets the target layer of terrain cell `start` to `target` and runs
    /// the resulting cascade to completion, as `settle_cascade` does on
    /// the terrain population; paired water is unaffected (it follows
    /// terrain only through per-tick completion events).
    pub fn settle_terrain_edit(&mut self, start: usize, target: i64)
        requires
            old(self).wf(),
            (start as int) < old(self).grounds@.len(),
            -HEIGHT_LIMIT <= target <= HEIGHT_LIMIT,
            settled(old(self).grounds@),
            crate::shifting::valid_slope(old(self).grounds@),
        ensures
            final(self).wf(),
            final(self).grounds@.len() == old(self).grounds@.len(),
            settled(final(self).grounds@),
            final(self).grounds@[start as int].cell.layer == target,
            forall|k: int| 0 <= k < old(self).grounds@.len() && k != start
                ==> (#[trigger] final(self).grounds@[k]).cell.layer == old(self).grounds@[k].cell.layer
                    || (target > old(self).grounds@[start as int].cell.layer
                        && final(self).grounds@[k].cell.layer == old(self).grounds@[k].cell.layer + CELL_HEIGHT)
                    || (target < old(self).grounds@[start as int].cell.layer
                        && final(self).grounds@[k].cell.layer == old(self).grounds@[k].cell.layer - CELL_HEIGHT),
            -CELL_HEIGHT <= target - old(self).grounds@[start as int].cell.layer <= CELL_HEIGHT
                ==> crate::shifting::valid_slope(final(self).grounds@),
            final(self).waters@ == old(self).waters@,
            final(self).pairs@ == old(self).pairs@,
            final(self).settings == old(self).settings,
    {
        crate::shifting::settle_cascade(&mut self.grounds, &self.ground_hoods, start, target);
        proof {
            crate::neighborhood::lemma_unique_coords_same(
                ground_view(old(self).grounds@), ground_view(self.grounds@));
            crate::neighborhood::lemma_hoods_ok_same(
                ground_view(old(self).grounds@), ground_view(self.grounds@), self.ground_hoods@);
            assert forall|k: int| 0 <= k < self.pairs@.len() implies {
                &&& (#[trigger] self.pairs@[k]).water == self.waters@[k].id
                &&& (self.pairs@[k].ground as int) < self.grounds@.len()
                &&& self.waters@[k].cell.row == self.grounds@[self.pairs@[k].ground as int].cell.row
                &&& self.waters@[k].cell.col == self.grounds@[self.pairs@[k].ground as int].cell.col
            } by {
                assert(self.grounds@[self.pairs@[k].ground as int].cell.row
                    == old(self).grounds@[self.pairs@[k].ground as int].cell.row);
                assert(self.grounds@[self.pairs@[k].ground as int].cell.col
                    == old(self).grounds@[self.pairs@[k].ground as int].cell.col);
            }
            assert(self.wf());
        }
    }

    /// One simulation tick, in the causal order of the engine; its
    /// result is pinned as the composition of the pass relations it runs:
    /// advance the animations (`advanced_pop`, emitting `step_events`),
    /// run each completion's cascade step and move its paired water
    /// (`grounds_after_events`, `waters_after_events`), then the five
    /// leveling passes (mark, rate, seed, apply, clamp), and finish with
    /// the despawn sweep over the post-leveling heights — so a cell that
    /// drained below its terrain this tick is removed this same tick.
    /// `delta` is how far a rendered height may travel this tick.
    pub fn tick(&mut self, delta: i64)
        requires
            old(self).wf(),
            delta >= 0,
        ensures
            final(self).wf(),
            final(self).grounds@.len() == old(self).grounds@.len(),
            forall|k: int| 0 <= k < old(self).grounds@.len()
                ==> (#[trigger] final(self).grounds@[k]).cell.row == old(self).grounds@[k].cell.row
                    && final(self).grounds@[k].cell.col == old(self).grounds@[k].cell.col,
            final(self).settings == old(self).settings,
            final(self).next_water_id == old(self).next_water_id,
            final(self).ground_hoods@ == old(self).ground_hoods@,
            ({
                let events = crate::shifting::step_events(old(self).grounds@, delta);
                let g1 = crate::shifting::advanced_pop(old(self).grounds@, delta);
                let g2 = crate::shifting::grounds_after_events(
                    g1, old(self).ground_hoods@, events, events.len() as int);
                let w1 = crate::water::waters_after_events(
                    old(self).waters@, old(self).pairs@, events, events.len() as int);
                let w2 = crate::fluid_dynamics::attached_pass(w1);
                let seeds = crate::fluid_dynamics::seeds_spec(
                    w2, old(self).water_hoods@, w2.len() as int);
                let w3 = crate::fluid_dynamics::rated_pass(w2, old(self).water_hoods@);
                let w4 = crate::fluid_dynamics::seeded_pass(w3, seeds);
                let w5 = crate::fluid_dynamics::drained_pass(w4);
                let w6 = crate::fluid_dynamics::clamped_pass(w5);
                &&& final(self).grounds@ == g2
                &&& final(self).waters@ == crate::water::swept_waters(
                    w6, old(self).pairs@, g2, w6.len() as int)
                &&& final(self).pairs@ == crate::water::swept_pairs(
                    w6, old(self).pairs@, g2, w6.len() as int)
            }),
    {
        let ghost g0 = self.grounds@;
        let ghost w0 = self.waters@;
        let ghost pairs0 = self.pairs@;
        let ghost hoods0 = self.ground_hoods@;
        let gn = self.grounds.len();
        let events = crate::shifting::shift_cells(&mut self.grounds, delta);
        let ghost g1 = self.grounds@;
        proof {
            assert(g1 =~= crate::shifting::advanced_pop(g0, delta));
            assert forall|k: int| 0 <= k < self.grounds@.len()
                implies (#[trigger] self.grounds@[k]).cell == g0[k].cell by {
                assert(self.grounds@[k] == crate::shifting::advanced_cell(g0[k], delta));
            }
            crate::neighborhood::lemma_unique_coords_same(
                ground_view(g0), ground_view(self.grounds@));
            crate::neighborhood::lemma_hoods_ok_same(
                ground_view(g0), ground_view(self.grounds@), self.ground_hoods@);
            assert forall|t: int| 0 <= t < events@.len()
                implies (#[trigger] events@[t].index as int) < self.grounds@.len()
                    && -HEIGHT_LIMIT <= events@[t].layer <= HEIGHT_LIMIT by {
                crate::shifting::lemma_step_events_wf(g0, delta, t);
            }
        }
        let n_events = events.len();
        let mut e: usize = 0;
        while e < n_events
            invariant
                n_events == events@.len(),
                self.wf(),
                self.grounds@.len() == old(self).grounds@.len(),
                forall|k: int| 0 <= k < self.grounds@.len()
                    ==> (#[trigger] self.grounds@[k]).cell.row == old(self).grounds@[k].cell.row
                        && self.grounds@[k].cell.col == old(self).grounds@[k].cell.col,
                self.settings == old(self).settings,
                self.next_water_id == old(self).next_water_id,
                self.ground_hoods@ == hoods0,
                self.water_hoods@ == old(self).water_hoods@,
                self.pairs@ == pairs0,
                self.grounds@ == crate::shifting::grounds_after_events(g1, hoods0, events@, e as int),
                self.waters@ == crate::water::waters_after_events(w0, pairs0, events@, e as int),
                forall|t: int| 0 <= t < events@.len()
                    ==> (#[trigger] events@[t].index as int) < self.grounds@.len()
                        && -HEIGHT_LIMIT <= events@[t].layer <= HEIGHT_LIMIT,
                e <= n_events,
            decreases n_events - e,
        {
            let ghost g_pre = self.grounds@;
            let ev = events[e];
            crate::shifting::shift_neighbors(&mut self.grounds, &self.ground_hoods, &ev);
            proof {
                assert forall|k: int| 0 <= k < self.grounds@.len()
                    implies -HEIGHT_LIMIT <= (#[trigger] self.grounds@[k]).cell.layer <= HEIGHT_LIMIT
                        && -HEIGHT_LIMIT <= self.grounds@[k].rendered <= HEIGHT_LIMIT
                        && self.grounds@[k].cell.row == g_pre[k].cell.row
                        && self.grounds@[k].cell.col == g_pre[k].cell.col by {
                    assert(self.grounds@[k] == if crate::neighborhood::is_link(
                        self.ground_hoods@[ev.index as int], k as usize) {
                        crate::shifting::cascaded_cell(g_pre[k], ev.up, ev.layer as int)
                    } else {
                        g_pre[k]
                    });
                }
                crate::neighborhood::lemma_unique_coords_same(
                    ground_view(g_pre), ground_view(self.grounds@));
                crate::neighborhood::lemma_hoods_ok_same(
                    ground_view(g_pre), ground_view(self.grounds@), self.ground_hoods@);
                assert forall|k: int| 0 <= k < self.pairs@.len() implies {
                    &&& (#[trigger] self.pairs@[k]).water == self.waters@[k].id
                    &&& (self.pairs@[k].ground as int) < self.grounds@.len()
                    &&& self.waters@[k].cell.row == self.grounds@[self.pairs@[k].ground as int].cell.row
                    &&& self.waters@[k].cell.col == self.grounds@[self.pairs@[k].ground as int].cell.col
                } by {
                    assert(self.grounds@[self.pairs@[k].ground as int].cell.row
                        == g_pre[self.pairs@[k].ground as int].cell.row);
                    assert(self.grounds@[self.pairs@[k].ground as int].cell.col
                        == g_pre[self.pairs@[k].ground as int].cell.col);
                }
                assert(self.wf());
                assert(self.grounds@ =~= crate::shifting::cascaded_pop(
                    g_pre, hoods0[ev.index as int], ev.up, ev.layer as int));
                assert(self.grounds@
                    == crate::shifting::grounds_after_events(g1, hoods0, events@, e + 1));
            }
            self.try_shift_water(ev.index, ev.up);
            proof {
                assert(self.waters@
                    == crate::water::waters_after_events(w0, pairs0, events@, e + 1));
            }
            e = e + 1;
        }
        let ghost g2 = self.grounds@;
        let ghost w1 = self.waters@;
        self.attach_draining();
        let ghost w2 = self.waters@;
        let seeds = self.set_drain_rate();
        self.add_draining(&seeds);
        self.drain_water();
        self.remove_draining();
        self.despawn_sweep();
        proof {
            assert forall|k: int| 0 <= k < self.grounds@.len()
                implies (#[trigger] self.grounds@[k]).cell.row == old(self).grounds@[k].cell.row
                    && self.grounds@[k].cell.col == old(self).grounds@[k].cell.col by {
            }
        }
    }

    /// Pairing uniqueness: in a well-formed simulation, at most one live
    /// water cell is paired to a given terrain cell at any time.
    pub proof fn lemma_pairing_unique(self, a: int, b: int)
        requires
            self.wf(),
            0 <= a < self.pairs@.len(),
            0 <= b < self.pairs@.len(),
            self.pairs@[a].ground == self.pairs@[b].ground,
        ensures
            a == b,
    {
    }
}

/// Extracts the grid cells of a water population, for rebuilding its
/// neighborhood index with the shared routine.
fn water_cells(waters: &Vec<WaterCell>) -> (r: Vec<GridCell>)
    ensures
        r@ == water_view(waters@),
{
    let n = waters.len();
    let mut r: Vec<GridCell> = Vec::new();
    let mut k: usize = 0;
    while k < n
        invariant
            n == waters@.len(),
            k <= n,
            r@.len() == k,
            forall|t: int| 0 <= t < k ==> #[trigger] r@[t] == waters@[t].cell,
        decreases n - k,
    {
        r.push(waters[k].cell);
        k = k + 1;
    }
    proof {
        assert(r@ =~= water_view(waters@));
    }
    r
}

} // verus!
