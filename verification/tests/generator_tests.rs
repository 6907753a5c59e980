use worldgen::chunk_manager::ChunkManager;
use worldgen::coords::ChunkCoord;
use worldgen::generator::{ChunkGenerator, ClassGrid, GenerationError, TileUpdate};
use worldgen::terrain::TerrainClass;
use worldgen::tile_grid::TileBitGrid;

fn bit(mask: u8, b: u8) -> bool {
    (mask >> b) & 1 == 1
}

fn patchwork() -> ClassGrid {
    let mut classes = ClassGrid::filled(TerrainClass::Land);
    for x in 0..16usize {
        for y in 0..16usize {
            if (x * 7 + y * 3) % 5 < 2 {
                classes.set(x, y, TerrainClass::Water);
            }
        }
    }
    classes
}

fn land(classes: &ClassGrid, x: usize, y: usize) -> bool {
    classes.get(x, y) == TerrainClass::Land
}

#[test]
fn all_land_chunk_alone_keeps_every_bit_set() {
    let mut manager = ChunkManager::new();
    let classes = ClassGrid::filled(TerrainClass::Land);
    let (grid, updates) =
        ChunkGenerator::generate(&mut manager, ChunkCoord::new(0, 0), &classes).unwrap();
    for x in 0..16usize {
        for y in 0..16usize {
            assert_eq!(grid.read(x, y), 0b1111);
        }
    }
    assert_eq!(updates.len(), 256 + 240 + 240 + 225 + 225);
    assert_eq!(
        updates[0],
        TileUpdate { chunk: ChunkCoord::new(0, 0), x: 0, y: 0, variant: 0b1111 }
    );
    assert_eq!(
        updates[1],
        TileUpdate { chunk: ChunkCoord::new(0, 0), x: 1, y: 0, variant: 0b1111 }
    );
    assert_eq!(
        updates[2],
        TileUpdate { chunk: ChunkCoord::new(0, 0), x: 0, y: 0, variant: 0b1111 }
    );
}

#[test]
fn all_water_chunk_alone_keeps_every_bit_clear() {
    let mut manager = ChunkManager::new();
    let classes = ClassGrid::filled(TerrainClass::Water);
    let (grid, _) =
        ChunkGenerator::generate(&mut manager, ChunkCoord::new(3, -2), &classes).unwrap();
    for x in 0..16usize {
        for y in 0..16usize {
            assert_eq!(grid.read(x, y), 0b0000);
        }
    }
}

#[test]
fn fresh_chunk_bits_report_on_the_neighbours_placed_later() {
    let mut manager = ChunkManager::new();
    let classes = patchwork();
    let (grid, _) =
        ChunkGenerator::generate(&mut manager, ChunkCoord::new(0, 0), &classes).unwrap();
    for x in 0..16usize {
        for y in 0..16usize {
            let mask = grid.read(x, y);
            let own = land(&classes, x, y);
            assert!(mask <= 0b1111);
            assert_eq!(bit(mask, 2), own);
            assert_eq!(bit(mask, 3), if x < 15 { land(&classes, x + 1, y) } else { own });
            assert_eq!(bit(mask, 0), if y < 15 { land(&classes, x, y + 1) } else { own });
            let expected = if x < 15 && y < 15 {
                land(&classes, x + 1, y + 1)
            } else if y < 15 {
                land(&classes, x, y + 1)
            } else if x < 15 {
                land(&classes, x + 1, y)
            } else {
                own
            };
            assert_eq!(bit(mask, 1), expected);
        }
    }
}

#[test]
fn border_tiles_of_a_lone_chunk_face_outwards_with_their_own_class() {
    let mut manager = ChunkManager::new();
    let classes = patchwork();
    let (grid, _) =
        ChunkGenerator::generate(&mut manager, ChunkCoord::new(0, 0), &classes).unwrap();
    for y in 0..16usize {
        assert_eq!(bit(grid.read(15, y), 3), land(&classes, 15, y));
    }
    for x in 0..16usize {
        assert_eq!(bit(grid.read(x, 15), 0), land(&classes, x, 15));
    }
    assert_eq!(bit(grid.read(15, 15), 1), land(&classes, 15, 15));
}

#[test]
fn second_generation_of_a_chunk_is_refused() {
    let mut manager = ChunkManager::new();
    let classes = patchwork();
    let coord = ChunkCoord::new(4, 5);
    assert!(!manager.is_spawned(coord));
    let (grid, _) = ChunkGenerator::generate(&mut manager, coord, &classes).unwrap();
    assert!(manager.is_spawned(coord));
    let again = ChunkGenerator::generate(&mut manager, coord, &ClassGrid::filled(TerrainClass::Water));
    assert_eq!(again.err(), Some(GenerationError::AlreadySpawned));
    assert_eq!(manager.grid(coord).unwrap().bits, grid.bits);
}

#[test]
fn distinct_chunks_both_generate_and_stay_on_record() {
    let mut manager = ChunkManager::new();
    let a = ChunkCoord::new(0, 0);
    let b = ChunkCoord::new(7, 7);
    let land_grid = ClassGrid::filled(TerrainClass::Land);
    let water_grid = ClassGrid::filled(TerrainClass::Water);
    assert!(ChunkGenerator::generate(&mut manager, a, &land_grid).is_ok());
    assert!(ChunkGenerator::generate(&mut manager, b, &water_grid).is_ok());
    assert!(manager.is_spawned(a));
    assert!(manager.is_spawned(b));
    assert_eq!(manager.grid(a).unwrap().read(3, 3), 0b1111);
    assert_eq!(manager.grid(b).unwrap().read(3, 3), 0b0000);
    assert!(manager.grid(ChunkCoord::new(1, 0)).is_none());
}

#[test]
fn eastern_neighbour_patches_the_border_it_touches() {
    let mut manager = ChunkManager::new();
    let west = ChunkCoord::new(0, 0);
    let east = ChunkCoord::new(1, 0);
    let land_grid = ClassGrid::filled(TerrainClass::Land);
    ChunkGenerator::generate(&mut manager, west, &land_grid).unwrap();
    let before: TileBitGrid = manager.grid(west).unwrap();

    let mut classes = ClassGrid::filled(TerrainClass::Land);
    for y in [2usize, 3, 9, 15] {
        classes.set(0, y, TerrainClass::Water);
    }
    let (_, updates) = ChunkGenerator::generate(&mut manager, east, &classes).unwrap();
    let after = manager.grid(west).unwrap();

    for y in 0..16usize {
        let mask = after.read(15, y);
        let across = land(&classes, 0, y);
        let across_up = if y < 15 { land(&classes, 0, y + 1) } else { across };
        assert_eq!(bit(mask, 3), across);
        assert_eq!(bit(mask, 1), across_up);
        assert_eq!(bit(mask, 0), bit(before.read(15, y), 0));
        assert_eq!(bit(mask, 2), bit(before.read(15, y), 2));
    }
    for x in 0..15usize {
        for y in 0..16usize {
            assert_eq!(after.read(x, y), before.read(x, y));
        }
    }
    for y in [2u8, 3, 9, 15] {
        assert!(updates.iter().any(|u| u.chunk == west && u.x == 15 && u.y == y));
        let last = updates.iter().rev().find(|u| u.chunk == west && u.x == 15 && u.y == y).unwrap();
        assert_eq!(last.variant, after.read(15, y as usize));
        assert!(!bit(last.variant, 3));
    }
}

#[test]
fn absent_neighbours_are_skipped() {
    let mut manager = ChunkManager::new();
    let classes = patchwork();
    let (_, updates) =
        ChunkGenerator::generate(&mut manager, ChunkCoord::new(0, 0), &classes).unwrap();
    assert!(updates.iter().all(|u| u.chunk == ChunkCoord::new(0, 0)));
    assert_eq!(updates.len(), 256 + 240 + 240 + 225 + 225);
}

#[test]
fn chunk_at_the_edge_of_the_lattice_generates() {
    let mut manager = ChunkManager::new();
    let classes = patchwork();
    let corner = ChunkCoord::new(i32::MAX, i32::MIN);
    assert!(ChunkGenerator::generate(&mut manager, corner, &classes).is_ok());
    assert!(manager.is_spawned(corner));
}

#[test]
fn diagonal_neighbour_patches_one_corner_bit() {
    let mut manager = ChunkManager::new();
    let old = ChunkCoord::new(0, 0);
    ChunkGenerator::generate(&mut manager, old, &ClassGrid::filled(TerrainClass::Land)).unwrap();
    let fresh = ChunkCoord::new(1, 1);
    ChunkGenerator::generate(&mut manager, fresh, &ClassGrid::filled(TerrainClass::Water)).unwrap();
    let after = manager.grid(old).unwrap();
    // the tile at (0, 0) of the new chunk sees (15, 15) of the old one to its south-west
    assert_eq!(after.read(15, 15), 0b1101);
    assert_eq!(after.read(14, 15), 0b1111);
    assert_eq!(after.read(15, 14), 0b1111);
}

fn stripes() -> ClassGrid {
    let mut classes = ClassGrid::filled(TerrainClass::Land);
    for x in 0..16usize {
        for y in 0..16usize {
            if (x + 2 * y) % 3 == 0 {
                classes.set(x, y, TerrainClass::Water);
            }
        }
    }
    classes
}

#[test]
fn western_neighbour_patches_the_border_it_touches() {
    let mut manager = ChunkManager::new();
    let old = ChunkCoord::new(0, 0);
    ChunkGenerator::generate(&mut manager, old, &patchwork()).unwrap();
    let before = manager.grid(old).unwrap();
    let classes = stripes();
    ChunkGenerator::generate(&mut manager, ChunkCoord::new(-1, 0), &classes).unwrap();
    let after = manager.grid(old).unwrap();
    for y in 0..16usize {
        let mask = after.read(0, y);
        let across = land(&classes, 15, y);
        assert_eq!(bit(mask, 2), across);
        assert_eq!(bit(mask, 0), if y < 15 { land(&classes, 15, y + 1) } else { across });
        assert_eq!(bit(mask, 1), bit(before.read(0, y), 1));
        assert_eq!(bit(mask, 3), bit(before.read(0, y), 3));
    }
}

#[test]
fn northern_neighbour_patches_the_border_it_touches() {
    let mut manager = ChunkManager::new();
    let old = ChunkCoord::new(0, 0);
    ChunkGenerator::generate(&mut manager, old, &patchwork()).unwrap();
    let before = manager.grid(old).unwrap();
    let classes = stripes();
    ChunkGenerator::generate(&mut manager, ChunkCoord::new(0, 1), &classes).unwrap();
    let after = manager.grid(old).unwrap();
    for x in 0..16usize {
        let mask = after.read(x, 15);
        let across = land(&classes, x, 0);
        assert_eq!(bit(mask, 0), across);
        assert_eq!(bit(mask, 1), if x < 15 { land(&classes, x + 1, 0) } else { across });
        assert_eq!(bit(mask, 2), bit(before.read(x, 15), 2));
        assert_eq!(bit(mask, 3), bit(before.read(x, 15), 3));
    }
}

#[test]
fn southern_neighbour_patches_the_border_it_touches() {
    let mut manager = ChunkManager::new();
    let old = ChunkCoord::new(0, 0);
    ChunkGenerator::generate(&mut manager, old, &patchwork()).unwrap();
    let before = manager.grid(old).unwrap();
    let classes = stripes();
    ChunkGenerator::generate(&mut manager, ChunkCoord::new(0, -1), &classes).unwrap();
    let after = manager.grid(old).unwrap();
    for x in 0..16usize {
        let mask = after.read(x, 0);
        let across = land(&classes, x, 15);
        assert_eq!(bit(mask, 1), across);
        assert_eq!(bit(mask, 2), across);
        let expected = if x < 15 { land(&classes, x + 1, 15) } else { bit(before.read(x, 0), 3) };
        assert_eq!(bit(mask, 3), expected);
        assert_eq!(bit(mask, 0), bit(before.read(x, 0), 0));
    }
}

#[test]
fn a_water_tile_among_water_shows_no_bit_though_all_classes_agree() {
    let mut manager = ChunkManager::new();
    let (grid, _) = ChunkGenerator::generate(
        &mut manager,
        ChunkCoord::new(0, 0),
        &ClassGrid::filled(TerrainClass::Water),
    )
    .unwrap();
    assert_eq!(grid.read(4, 4), 0);
}

#[test]
fn a_fresh_chunk_does_not_look_at_the_record() {
    let classes = patchwork();
    let mut lone = ChunkManager::new();
    let (alone, _) = ChunkGenerator::generate(&mut lone, ChunkCoord::new(5, 5), &classes).unwrap();
    let mut crowded = ChunkManager::new();
    for (x, y) in [(-1, 0), (1, 0), (0, 1), (0, -1), (1, 1), (-1, -1)] {
        ChunkGenerator::generate(&mut crowded, ChunkCoord::new(x, y), &stripes()).unwrap();
    }
    let (amid, updates) =
        ChunkGenerator::generate(&mut crowded, ChunkCoord::new(0, 0), &classes).unwrap();
    assert_eq!(alone.bits, amid.bits);
    assert!(updates.iter().any(|u| u.chunk == ChunkCoord::new(1, 1)));
    assert!(updates.iter().all(|u| u.x < 16 && u.y < 16 && u.variant <= 0b1111));
}
