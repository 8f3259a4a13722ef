use terra_flow::fluid_dynamics::{LEVEL_CUTOFF, WATER_SPEED};
use terra_flow::grid::{GridCell, CELL_HEIGHT};
use terra_flow::ground::CheckGroundForDraining;
use terra_flow::map::{MapError, MapGenerationSettings, TerrainSettings};
use terra_flow::neighborhood::{connect_grid_cells, Neighborhood};
use terra_flow::pair::Pair;
use terra_flow::shifting::{shift_cells, shift_neighbors, GroundCell, ShiftFinished, Shifting};
use terra_flow::simulation::Simulation;
use terra_flow::water::{Water, WaterCell};

fn flat_map(size: i32) -> Simulation {
    let mut sim = Simulation::new();
    let settings = MapGenerationSettings {
        size,
        terrain: TerrainSettings::FLAT,
    };
    let levels = vec![0i32; (size * size) as usize];
    sim.generate_map(&settings, &levels).unwrap();
    sim
}

fn ground_index(sim: &Simulation, row: i32, col: i32) -> usize {
    sim.grounds
        .iter()
        .position(|g| g.cell.row == row && g.cell.col == col)
        .unwrap()
}

#[test]
fn raise_center_of_flat_grid_one_slope_step_spreads() {
    // flat 3x3, raise the center to 2.0: the four edge neighbors climb one
    // slope step (0.5) and the corners stay put
    let mut sim = flat_map(3);
    let center = ground_index(&sim, 1, 1);
    sim.settle_terrain_edit(center, 4 * CELL_HEIGHT);
    assert_eq!(sim.grounds[center].cell.layer, 2000);
    for (r, c) in [(0, 1), (1, 0), (1, 2), (2, 1)] {
        let i = ground_index(&sim, r, c);
        assert_eq!(sim.grounds[i].cell.layer, 500, "edge neighbor ({r},{c})");
    }
    for (r, c) in [(0, 0), (0, 2), (2, 0), (2, 2)] {
        let i = ground_index(&sim, r, c);
        assert_eq!(sim.grounds[i].cell.layer, 0, "corner ({r},{c})");
    }
    // everything is settled again
    for g in &sim.grounds {
        assert!(g.shifting.is_none());
        assert_eq!(g.rendered, g.cell.layer);
    }
}

#[test]
fn single_step_edits_keep_slope_valid() {
    let mut sim = flat_map(3);
    let center = ground_index(&sim, 1, 1);
    // raise one step at a time: no pair may ever differ by more than a step
    for step in 1..=4i64 {
        sim.settle_terrain_edit(center, step * CELL_HEIGHT);
        for a in 0..sim.grounds.len() {
            for b in 0..sim.grounds.len() {
                let ga = &sim.grounds[a];
                let gb = &sim.grounds[b];
                let adjacent = (ga.cell.row - gb.cell.row).abs() + (ga.cell.col - gb.cell.col).abs() == 1;
                if adjacent {
                    assert!((ga.cell.layer - gb.cell.layer).abs() <= CELL_HEIGHT);
                }
            }
        }
    }
    // after four single steps the whole grid has been dragged upward
    assert_eq!(sim.grounds[center].cell.layer, 4 * CELL_HEIGHT);
    let corner = ground_index(&sim, 0, 0);
    assert_eq!(sim.grounds[corner].cell.layer, 2 * CELL_HEIGHT);
}

#[test]
fn lowering_cascades_downward() {
    let mut sim = flat_map(3);
    let center = ground_index(&sim, 1, 1);
    sim.settle_terrain_edit(center, -4 * CELL_HEIGHT);
    assert_eq!(sim.grounds[center].cell.layer, -2000);
    for (r, c) in [(0, 1), (1, 0), (1, 2), (2, 1)] {
        let i = ground_index(&sim, r, c);
        assert_eq!(sim.grounds[i].cell.layer, -500);
    }
    let corner = ground_index(&sim, 0, 0);
    assert_eq!(sim.grounds[corner].cell.layer, 0);
}

#[test]
fn connect_grid_cells_links_axis_neighbors() {
    let cells = vec![
        GridCell { row: 0, col: 0, layer: 0 },
        GridCell { row: 1, col: 0, layer: 0 },
        GridCell { row: 0, col: 1, layer: 0 },
    ];
    let hoods = connect_grid_cells(&cells);
    // cell 0 has a right neighbor (row+1) and a back neighbor (col+1)
    assert_eq!(hoods[0].right_neighbor, Some(1));
    assert_eq!(hoods[0].back_neighbor, Some(2));
    assert_eq!(hoods[0].left_neighbor, None);
    assert_eq!(hoods[0].front_neighbor, None);
    // symmetry
    assert_eq!(hoods[1].left_neighbor, Some(0));
    assert_eq!(hoods[2].front_neighbor, Some(0));
    // diagonal cells are not linked
    assert_eq!(hoods[1].back_neighbor, None);
    assert_eq!(hoods[2].right_neighbor, None);
}

#[test]
fn get_neighbors_lists_links_in_fixed_order() {
    let h = Neighborhood {
        left_neighbor: Some(3),
        right_neighbor: None,
        front_neighbor: Some(7),
        back_neighbor: None,
    };
    assert_eq!(h.get_neighbors(), vec![Some(3), None, Some(7), None]);
    let d = Neighborhood::default();
    assert_eq!(d.get_neighbors(), vec![None, None, None, None]);
}

#[test]
fn shift_cells_animates_and_clamps() {
    let mut grounds = vec![GroundCell {
        cell: GridCell { row: 0, col: 0, layer: 1000 },
        rendered: 0,
        shifting: Some(Shifting { up: true }),
    }];
    let events = shift_cells(&mut grounds, 600);
    // moved by the tick delta, not yet arrived: no completion
    assert_eq!(grounds[0].rendered, 600);
    assert!(events.is_empty());
    assert!(grounds[0].shifting.is_some());
    let events = shift_cells(&mut grounds, 600);
    // clamped exactly onto the target, marker removed, completion emitted
    assert_eq!(grounds[0].rendered, 1000);
    assert!(grounds[0].shifting.is_none());
    assert_eq!(events.len(), 1);
    assert_eq!(events[0].index, 0);
    assert!(events[0].up);
    assert_eq!(events[0].layer, 1000);
}

#[test]
fn shift_neighbors_applies_the_cascade_rule_once() {
    let cells = vec![
        GridCell { row: 0, col: 0, layer: 0 },
        GridCell { row: 1, col: 0, layer: 0 },
    ];
    let hoods = connect_grid_cells(&cells);
    let mut grounds: Vec<GroundCell> = cells
        .iter()
        .map(|c| GroundCell { cell: *c, rendered: c.layer, shifting: None })
        .collect();
    grounds[0].cell.layer = 2000;
    let shift = ShiftFinished { index: 0, up: true, layer: 2000 };
    shift_neighbors(&mut grounds, &hoods, &shift);
    // the neighbor rises by exactly one slope step and starts shifting up
    assert_eq!(grounds[1].cell.layer, CELL_HEIGHT);
    assert!(matches!(grounds[1].shifting, Some(Shifting { up: true })));
    // a neighbor within one step is left alone
    let shift = ShiftFinished { index: 1, up: true, layer: 500 };
    shift_neighbors(&mut grounds, &hoods, &shift);
    assert_eq!(grounds[0].cell.layer, 2000);
}

#[test]
fn ground_check_spawns_water_below_requested_level() {
    // terrain cell at height 1.0, no water; probing at level 1.5 spawns a
    // water cell at height >= 1.0 and creates the pair
    let mut sim = flat_map(1);
    sim.grounds[0].cell.layer = 1000;
    sim.grounds[0].rendered = 1000;
    let spawned = sim.check_ground_for_draining(&CheckGroundForDraining {
        row: 0,
        col: 0,
        water_level: 1500,
    });
    assert!(spawned);
    assert_eq!(sim.waters.len(), 1);
    assert_eq!(sim.pairs.len(), 1);
    assert!(sim.waters[0].cell.layer >= 1000);
    assert_eq!(sim.waters[0].cell.layer, 1000 + CELL_HEIGHT);
    assert_eq!(sim.pairs[0].ground, 0);
    assert_eq!(sim.pairs[0].water, sim.waters[0].id);
}

#[test]
fn ground_check_skips_high_ground() {
    let mut sim = flat_map(1);
    sim.grounds[0].cell.layer = 1000;
    sim.grounds[0].rendered = 1000;
    let spawned = sim.check_ground_for_draining(&CheckGroundForDraining {
        row: 0,
        col: 0,
        water_level: 500,
    });
    assert!(!spawned);
    assert!(sim.waters.is_empty());
    // a probe of a cell that does not exist is silently skipped
    let spawned = sim.check_ground_for_draining(&CheckGroundForDraining {
        row: 5,
        col: 5,
        water_level: 9000,
    });
    assert!(!spawned);
}

#[test]
fn at_most_one_water_cell_per_terrain_cell() {
    let mut sim = flat_map(1);
    assert!(sim.create_water(0));
    assert!(!sim.create_water(0));
    assert_eq!(sim.waters.len(), 1);
    assert_eq!(sim.pairs.len(), 1);
}

#[test]
fn manual_fill_increases_or_spawns() {
    let mut sim = flat_map(1);
    // without a pair the fill spawns water instead
    assert!(!sim.manually_increase_water(0));
    assert_eq!(sim.waters.len(), 1);
    let amount = sim.waters[0].water.amount;
    let height = sim.waters[0].cell.layer;
    // with a pair the fill adds one level unit of volume and height
    assert!(sim.manually_increase_water(0));
    assert_eq!(sim.waters[0].water.amount, amount + CELL_HEIGHT);
    assert_eq!(sim.waters[0].cell.layer, height + CELL_HEIGHT);
    assert!(sim.waters[0].draining);
}

fn two_water_sim(height_a: i64, height_b: i64, amount_a: i64, amount_b: i64) -> Simulation {
    let mut sim = Simulation::new();
    let cells = vec![
        GridCell { row: 0, col: 0, layer: 0 },
        GridCell { row: 1, col: 0, layer: 0 },
    ];
    sim.ground_hoods = connect_grid_cells(&cells);
    sim.grounds = cells
        .iter()
        .map(|c| GroundCell { cell: *c, rendered: c.layer, shifting: None })
        .collect();
    let wcells = vec![
        GridCell { row: 0, col: 0, layer: height_a },
        GridCell { row: 1, col: 0, layer: height_b },
    ];
    sim.water_hoods = connect_grid_cells(&wcells);
    sim.waters = vec![
        WaterCell {
            id: 0,
            cell: wcells[0],
            water: Water { amount: amount_a, rate: 0 },
            draining: true,
        },
        WaterCell {
            id: 1,
            cell: wcells[1],
            water: Water { amount: amount_b, rate: 0 },
            draining: true,
        },
    ];
    sim.pairs = vec![Pair { ground: 0, water: 0 }, Pair { ground: 1, water: 1 }];
    sim.next_water_id = 2;
    sim
}

#[test]
fn leveling_moves_unequal_neighbors_by_equal_unit_steps() {
    // adjacent water cells at heights 3.0 and 1.0, cutoff 0.05, flow speed
    // 0.02: after one tick the higher strictly drops and the lower strictly
    // climbs, by equal-magnitude unit steps
    assert_eq!(LEVEL_CUTOFF, 50);
    assert_eq!(WATER_SPEED, 20);
    let mut sim = two_water_sim(3000, 1000, 3000, 1000);
    let seeds = sim.set_drain_rate();
    assert!(seeds.is_empty());
    assert_eq!(sim.waters[0].water.rate, -1);
    assert_eq!(sim.waters[1].water.rate, 1);
    sim.drain_water();
    assert_eq!(sim.waters[0].cell.layer, 3000 - WATER_SPEED);
    assert_eq!(sim.waters[1].cell.layer, 1000 + WATER_SPEED);
    assert_eq!(sim.waters[0].water.amount, 3000 - WATER_SPEED);
    assert_eq!(sim.waters[1].water.amount, 1000 + WATER_SPEED);
}

#[test]
fn near_equal_neighbors_sit_idle() {
    // heights within the cutoff: the rate settles to zero and nothing moves
    let mut sim = two_water_sim(1000, 1020, 1000, 1020);
    let seeds = sim.set_drain_rate();
    assert!(seeds.is_empty());
    assert_eq!(sim.waters[0].water.rate, 0);
    assert_eq!(sim.waters[1].water.rate, 0);
    sim.drain_water();
    assert_eq!(sim.waters[0].cell.layer, 1000);
    assert_eq!(sim.waters[1].cell.layer, 1020);
}

#[test]
fn empty_lower_neighbor_is_seeded_not_drained_into() {
    // the lower neighbor has no volume: instead of a numeric contribution it
    // is marked for draining
    let mut sim = two_water_sim(3000, 1000, 3000, 0);
    sim.waters[1].draining = false;
    let seeds = sim.set_drain_rate();
    // cell 0 sees the empty lower neighbor and asks to seed it
    assert_eq!(seeds, vec![1]);
    assert_eq!(sim.waters[0].water.rate, 0);
    sim.add_draining(&seeds);
    assert!(sim.waters[1].draining);
    // a freshly seeded cell starts at rate zero, so the apply pass of the
    // same tick cannot move it by a stale rate
    assert_eq!(sim.waters[1].water.rate, 0);
}

#[test]
fn seeding_discards_a_stale_rate() {
    let mut sim = two_water_sim(1000, 1000, 0, 10);
    // the idle cell once drained at full speed; its marker was removed
    sim.waters[0].draining = false;
    sim.waters[0].water.rate = -1;
    sim.add_draining(&vec![0]);
    assert!(sim.waters[0].draining);
    assert_eq!(sim.waters[0].water.rate, 0);
    sim.drain_water();
    assert_eq!(sim.waters[0].cell.layer, 1000);
    assert_eq!(sim.waters[0].water.amount, 0);
}

#[test]
fn drained_out_cell_clamps_to_zero_and_stops() {
    let mut sim = two_water_sim(1000, 1000, 10, 10);
    sim.waters[0].water.amount = -5;
    sim.waters[0].water.rate = -1;
    sim.remove_draining();
    assert_eq!(sim.waters[0].water.amount, 0);
    assert!(!sim.waters[0].draining);
    // the rate is destroyed together with the draining marker
    assert_eq!(sim.waters[0].water.rate, 0);
    // the untouched cell keeps draining
    assert!(sim.waters[1].draining);
}

#[test]
fn despawn_removes_water_below_its_terrain_and_its_pair() {
    // a water cell strictly below its paired terrain cell is removed by the
    // next sweep, together with its pair, in the same pass
    let mut sim = two_water_sim(3000, 1000, 3000, 1000);
    sim.grounds[1].rendered = 1200;
    sim.grounds[1].cell.layer = 1200;
    sim.despawn_sweep();
    assert_eq!(sim.waters.len(), 1);
    assert_eq!(sim.pairs.len(), 1);
    assert_eq!(sim.waters[0].id, 0);
    assert_eq!(sim.pairs[0].ground, 0);
}

#[test]
fn water_follows_a_completed_terrain_shift() {
    let mut sim = two_water_sim(1000, 1000, 500, 500);
    let found = sim.try_shift_water(0, true);
    assert!(found);
    assert_eq!(sim.waters[0].cell.layer, 1000 + CELL_HEIGHT);
    assert_eq!(sim.waters[1].cell.layer, 1000);
    // a terrain cell without a pair is simply skipped
    let mut sim2 = flat_map(1);
    assert!(!sim2.try_shift_water(0, true));
}

#[test]
fn generate_map_rejects_bad_parameters_and_keeps_state() {
    let mut sim = flat_map(2);
    let before = sim.grounds.len();
    let bad_size = MapGenerationSettings { size: -1, terrain: TerrainSettings::FLAT };
    assert_eq!(sim.generate_map(&bad_size, &vec![]), Err(MapError::InvalidSize));
    let huge = MapGenerationSettings { size: 100_000, terrain: TerrainSettings::FLAT };
    assert_eq!(sim.generate_map(&huge, &vec![]), Err(MapError::InvalidSize));
    let short = MapGenerationSettings { size: 2, terrain: TerrainSettings::FLAT };
    assert_eq!(sim.generate_map(&short, &vec![0; 3]), Err(MapError::WrongLevelCount));
    assert_eq!(sim.grounds.len(), before);
}

#[test]
fn generate_map_builds_row_major_grid_with_levels() {
    let mut sim = Simulation::new();
    let settings = MapGenerationSettings { size: 2, terrain: TerrainSettings::FLAT };
    sim.generate_map(&settings, &vec![0, 1, 2, 3]).unwrap();
    assert_eq!(sim.grounds.len(), 4);
    assert_eq!(sim.grounds[0].cell.layer, 0);
    assert_eq!(sim.grounds[1].cell.layer, CELL_HEIGHT);
    assert_eq!(sim.grounds[2].cell.layer, 2 * CELL_HEIGHT);
    assert_eq!(sim.grounds[3].cell.layer, 3 * CELL_HEIGHT);
    assert_eq!((sim.grounds[1].cell.row, sim.grounds[1].cell.col), (0, 1));
    assert_eq!((sim.grounds[2].cell.row, sim.grounds[2].cell.col), (1, 0));
    assert_eq!(sim.settings.value, settings);
    // clearing empties the populations but keeps the settings
    sim.clear_map();
    assert!(sim.grounds.is_empty());
    assert_eq!(sim.settings.value, settings);
}

#[test]
fn tick_runs_a_whole_frame() {
    let mut sim = flat_map(2);
    sim.shift_selected_cell(0, true);
    // one big tick finishes the animation and cascades
    sim.tick(10_000);
    assert_eq!(sim.grounds[0].cell.layer, CELL_HEIGHT);
    assert_eq!(sim.grounds[0].rendered, CELL_HEIGHT);
    assert!(sim.grounds[0].shifting.is_none());
    // a half-step raise does not break the slope bound, so neighbors stay
    assert_eq!(sim.grounds[1].cell.layer, 0);
    // water spawned above a probed cell survives ticking
    sim.check_ground_for_draining(&CheckGroundForDraining { row: 1, col: 1, water_level: 800 });
    assert_eq!(sim.waters.len(), 1);
    sim.tick(10_000);
    assert_eq!(sim.waters.len(), 1);
}

#[test]
fn grid_cell_identity_is_its_coordinates() {
    let a = GridCell { row: 1, col: 2, layer: 0 };
    let b = GridCell { row: 1, col: 2, layer: 999 };
    let c = GridCell { row: 2, col: 1, layer: 0 };
    assert!(a == b);
    assert!(a != c);
    let d = GridCell::from_grid_coordinates(3, 4, 2);
    assert_eq!((d.row, d.col, d.layer), (3, 4, 2 * CELL_HEIGHT));
}
