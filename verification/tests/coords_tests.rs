use worldgen::autotile::Direction;
use worldgen::chunk_manager::ChunkManager;
use worldgen::coords::{ChunkCoord, TileCoordinate};
use worldgen::world_generation::WorldGenerationPlugin;
use worldgen::generator::{ChunkGenerator, ClassGrid};
use worldgen::terrain::{TerrainClass, LAND_MARKER, WATER_MARKER};
use worldgen::tile_grid::{Data, TileBitGrid};

#[test]
fn markers_of_the_classes() {
    assert_eq!(TerrainClass::Land.marker(), 0b1111);
    assert_eq!(TerrainClass::Water.marker(), 0b0000);
    assert_eq!(LAND_MARKER, 0b1111);
    assert_eq!(WATER_MARKER, 0b0000);
    assert!(TerrainClass::Land.is_land());
    assert!(TerrainClass::Water.is_water());
    assert!(!TerrainClass::Water.is_land());
}

#[test]
fn directions_steps_and_opposites() {
    assert_eq!(Direction::North.offset(), (0, 1));
    assert_eq!(Direction::East.offset(), (1, 0));
    assert_eq!(Direction::South.offset(), (0, -1));
    assert_eq!(Direction::West.offset(), (-1, 0));
    assert_eq!(Direction::NorthWest.offset(), (-1, 1));
    assert_eq!(Direction::NorthEast.offset(), (1, 1));
    assert_eq!(Direction::SouthWest.offset(), (-1, -1));
    assert_eq!(Direction::SouthEast.offset(), (1, -1));
    for rank in 0..8u8 {
        let d = Direction::nth(rank);
        let (dx, dy) = d.offset();
        assert_eq!(Direction::from_offset(dx, dy), Some(d));
        assert_eq!(d.opposite().offset(), (-dx, -dy));
        assert_eq!(d.is_edge(), rank < 4);
        assert_eq!(d.take_mask() & d.keep_mask(), 0);
        assert_eq!(d.take_mask() | d.keep_mask(), 0b1111);
    }
    assert_eq!(Direction::from_offset(0, 0), None);
    assert_eq!(Direction::from_offset(2, 0), None);
}

#[test]
fn tile_coordinates_keep_local_indices_in_range() {
    let chunk = ChunkCoord::new(-2, 3);
    assert!(TileCoordinate::new(chunk, 16, 0).is_none());
    assert!(TileCoordinate::new(chunk, 0, 16).is_none());
    let tile = TileCoordinate::new(chunk, 5, 7).unwrap();
    assert_eq!(tile.chunk(), chunk);
    assert_eq!(tile.x(), 5);
    assert_eq!(tile.y(), 7);
    assert_eq!(tile.scan_index(), 7 * 16 + 5);
    assert_eq!(tile.absolute_tile(), (-27, 55));
    assert_eq!(tile.world_position(), (-2 * 16 * 32 + 5 * 32, 3 * 16 * 32 + 7 * 32));
}

#[test]
fn tile_from_absolute_position_rounds_down() {
    let tile = TileCoordinate::from_absolute(-1, 16).unwrap();
    assert_eq!(tile.chunk(), ChunkCoord::new(-1, 1));
    assert_eq!((tile.x(), tile.y()), (15, 0));
    assert!(TileCoordinate::from_absolute(i64::MAX, 0).is_none());
    assert!(TileCoordinate::from_absolute((i32::MAX as i64) * 16 + 15, 0).is_some());
    assert!(TileCoordinate::from_absolute((i32::MAX as i64) * 16 + 16, 0).is_none());
}

#[test]
fn neighbours_cross_chunk_borders() {
    let tile = TileCoordinate::new(ChunkCoord::new(0, 0), 15, 0).unwrap();
    let east = tile.neighbour(Direction::East).unwrap();
    assert_eq!(east.chunk(), ChunkCoord::new(1, 0));
    assert_eq!((east.x(), east.y()), (0, 0));
    let south_east = tile.neighbour(Direction::SouthEast).unwrap();
    assert_eq!(south_east.chunk(), ChunkCoord::new(1, -1));
    assert_eq!((south_east.x(), south_east.y()), (0, 15));
    let west = tile.neighbour(Direction::West).unwrap();
    assert_eq!(west.chunk(), ChunkCoord::new(0, 0));
    assert_eq!((west.x(), west.y()), (14, 0));
    let edge = TileCoordinate::new(ChunkCoord::new(i32::MAX, 0), 15, 3).unwrap();
    assert!(edge.neighbour(Direction::East).is_none());
    assert!(edge.neighbour(Direction::West).is_some());
}

#[test]
fn chunk_shift_stops_at_the_end_of_the_lattice() {
    assert_eq!(ChunkCoord::new(1, 2).shifted(-1, 1), Some(ChunkCoord::new(0, 3)));
    assert_eq!(ChunkCoord::new(i32::MIN, 0).shifted(-1, 0), None);
    assert_eq!(ChunkCoord::new(0, i32::MAX).shifted(0, 1), None);
}

#[test]
fn camera_positions_round_down() {
    assert_eq!(WorldGenerationPlugin::camera_pos_to_chunk_pos(0, 0), ChunkCoord::new(0, 0));
    assert_eq!(WorldGenerationPlugin::camera_pos_to_chunk_pos(-1, -1), ChunkCoord::new(-1, -1));
    assert_eq!(WorldGenerationPlugin::camera_pos_to_chunk_pos(511, 512), ChunkCoord::new(0, 1));
    assert_eq!(WorldGenerationPlugin::camera_pos_to_chunk_pos(-511, -512), ChunkCoord::new(-1, -1));
    assert_eq!(WorldGenerationPlugin::camera_pos_to_chunk_pos(-513, 1023), ChunkCoord::new(-2, 1));
    assert_eq!(WorldGenerationPlugin::camera_pos_to_chunk_pos(1300, -1300), ChunkCoord::new(2, -3));
    assert_eq!(
        WorldGenerationPlugin::camera_pos_to_chunk_pos(i32::MIN, i32::MAX),
        ChunkCoord::new(-4194304, 4194303)
    );
    assert_eq!(WorldGenerationPlugin::camera_pos_to_block_pos(-1, -1), ChunkCoord::new(-1, -1));
    assert_eq!(WorldGenerationPlugin::camera_pos_to_block_pos(1300, -1300), ChunkCoord::new(2, -3));
}

#[test]
fn the_chunk_of_a_pixel_is_the_chunk_of_its_tile() {
    for pixel in [-1025i32, -1024, -513, -512, -33, -32, -1, 0, 31, 32, 511, 512, 1023, 1024] {
        let chunk = WorldGenerationPlugin::camera_pos_to_chunk_pos(pixel, pixel);
        let tile_index = (pixel as i64).div_euclid(32);
        let tile = TileCoordinate::from_absolute(tile_index, tile_index).unwrap();
        assert_eq!(tile.chunk(), chunk);
        let (px, py) = tile.world_position();
        assert!(px <= pixel as i64 && (pixel as i64) < px + 32);
        assert!(py <= pixel as i64 && (pixel as i64) < py + 32);
    }
}

#[test]
fn grid_reads_back_what_was_written() {
    let mut grid = TileBitGrid::new();
    assert_eq!(grid.read(0, 0), 0b1111);
    assert_eq!(grid.read(15, 15), 0b1111);
    let before = grid.snapshot();
    grid.write(3, 4, 0b0101);
    assert_eq!(grid.read(3, 4), 0b0101);
    assert_eq!(grid.read(4, 3), 0b1111);
    grid.restore(&before);
    assert_eq!(grid.read(3, 4), 0b1111);
}

#[test]
fn data_mirrors_the_last_write() {
    let mut data = Data::default();
    assert_eq!(data.chunk_bits[2][9], 0);
    data.record(2, 9, 0b1001);
    assert_eq!(data.chunk_bits[2][9], 0b1001);
    assert_eq!(data.chunk_bits[9][2], 0);
}

#[test]
fn swapping_managers_replaces_the_record_in_one_step() {
    let mut current = ChunkManager::new();
    let overworld = ChunkCoord::new(0, 0);
    ChunkGenerator::generate(&mut current, overworld, &ClassGrid::filled(TerrainClass::Land))
        .unwrap();
    let mut archived = current.swap(ChunkManager::new());
    assert!(!current.is_spawned(overworld));
    assert!(current.grid(overworld).is_none());
    assert!(archived.is_spawned(overworld));
    ChunkGenerator::generate(&mut current, overworld, &ClassGrid::filled(TerrainClass::Water))
        .unwrap();
    let cave = archived.swap(current);
    assert_eq!(archived.grid(overworld).unwrap().read(0, 0), 0b0000);
    assert_eq!(cave.grid(overworld).unwrap().read(0, 0), 0b1111);
}

#[test]
fn a_new_manager_has_no_chunk() {
    let manager = ChunkManager::new();
    assert!(!manager.is_spawned(ChunkCoord::new(0, 0)));
    assert!(manager.grid(ChunkCoord::new(0, 0)).is_none());
}
