use worldgen::chunk_manager::ChunkManager;
use worldgen::coords::ChunkCoord;
use worldgen::dimension::{DimensionPlugin, DimensionSpawnEvent};
use worldgen::generator::{ChunkGenerator, ClassGrid};
use worldgen::smoothing::UNSET_TILE;
use worldgen::terrain::TerrainClass;
use worldgen::world_generation::WorldGenerationPlugin;

#[test]
fn a_tile_ringed_by_one_variant_takes_it() {
    let mut grid = [[2u32; 16]; 16];
    grid[5][5] = 1;
    let smooth = WorldGenerationPlugin::smooth_terrain(5, &grid);
    assert_eq!(smooth[5][5], 2);
    let strict = WorldGenerationPlugin::smooth_terrain(8, &grid);
    assert_eq!(strict[5][5], UNSET_TILE);
    let exact = WorldGenerationPlugin::smooth_terrain(7, &grid);
    assert_eq!(exact[5][5], 2);
}

#[test]
fn a_uniform_grid_is_left_alone() {
    let grid = [[3u32; 16]; 16];
    let smooth = WorldGenerationPlugin::smooth_terrain(5, &grid);
    for row in smooth.iter() {
        for cell in row.iter() {
            assert_eq!(*cell, UNSET_TILE);
        }
    }
}

#[test]
fn the_result_is_addressed_row_first() {
    let mut grid = [[2u32; 16]; 16];
    grid[3][9] = 1;
    let smooth = WorldGenerationPlugin::smooth_terrain(5, &grid);
    assert_eq!(smooth[9][3], 2);
    assert_eq!(smooth[3][9], UNSET_TILE);
}

#[test]
fn a_corner_tile_sees_three_neighbours() {
    let mut grid = [[2u32; 16]; 16];
    grid[0][0] = 1;
    assert_eq!(WorldGenerationPlugin::smooth_terrain(2, &grid)[0][0], 2);
    assert_eq!(WorldGenerationPlugin::smooth_terrain(3, &grid)[0][0], UNSET_TILE);
}

#[test]
fn mixed_neighbours_count_only_repeats_of_the_remembered_variant() {
    let mut grid = [[1u32; 16]; 16];
    // around (5, 5), read row by row from (4, 4): 2 3 3 / 3 . 2 / 2 2 2
    grid[4][4] = 2;
    grid[5][4] = 3;
    grid[6][4] = 3;
    grid[4][5] = 3;
    grid[6][5] = 2;
    grid[4][6] = 2;
    grid[5][6] = 2;
    grid[6][6] = 2;
    // remembered 2, then 3 (two repeats), then 2 (three repeats): count 5
    assert_eq!(WorldGenerationPlugin::smooth_terrain(5, &grid)[5][5], 2);
    assert_eq!(WorldGenerationPlugin::smooth_terrain(2, &grid)[5][5], 2);
    assert_eq!(WorldGenerationPlugin::smooth_terrain(6, &grid)[5][5], UNSET_TILE);
}

#[test]
fn chunks_around_the_origin_are_asked_for_until_generated() {
    let mut manager = ChunkManager::new();
    assert_eq!(
        WorldGenerationPlugin::chunks_to_spawn(&manager),
        vec![ChunkCoord::new(0, 0), ChunkCoord::new(-1, 0)]
    );
    let land = ClassGrid::filled(TerrainClass::Land);
    ChunkGenerator::generate(&mut manager, ChunkCoord::new(0, 0), &land).unwrap();
    assert_eq!(WorldGenerationPlugin::chunks_to_spawn(&manager), vec![ChunkCoord::new(-1, 0)]);
    ChunkGenerator::generate(&mut manager, ChunkCoord::new(-1, 0), &land).unwrap();
    assert!(WorldGenerationPlugin::chunks_to_spawn(&manager).is_empty());
}

#[test]
fn a_new_dimension_starts_empty_with_the_seed_asked_for() {
    let (seed, manager, enter) =
        DimensionPlugin::new_dim_with_params(&DimensionSpawnEvent { seed: Some(7), swap_to_dim_now: true });
    assert_eq!(seed.seed, 7);
    assert!(enter);
    assert!(!manager.is_spawned(ChunkCoord::new(0, 0)));
    let (seed, _, enter) =
        DimensionPlugin::new_dim_with_params(&DimensionSpawnEvent { seed: None, swap_to_dim_now: false });
    assert_eq!(seed.seed, 0);
    assert!(!enter);
}

#[test]
fn entering_a_dimension_hands_back_the_manager_that_was_in_use() {
    let mut in_use = ChunkManager::new();
    let home = ChunkCoord::new(0, 0);
    ChunkGenerator::generate(&mut in_use, home, &ClassGrid::filled(TerrainClass::Land)).unwrap();
    let (_, fresh, _) =
        DimensionPlugin::new_dim_with_params(&DimensionSpawnEvent { seed: None, swap_to_dim_now: true });
    let left = DimensionPlugin::handle_dimension_swap_events(&mut in_use, fresh);
    assert!(left.is_spawned(home));
    assert!(!in_use.is_spawned(home));
}
