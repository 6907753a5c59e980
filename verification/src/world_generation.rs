//! Where the camera is, in chunks, and which chunks are generated around
//! the origin.

use vstd::prelude::*;
use crate::chunk_manager::ChunkManager;
use crate::coords::ChunkCoord;

verus! {

/// Pixels along one side of a chunk: 16 tiles of 32 pixels.
pub const CHUNK_PIXELS: i64 = 512;

/// The chunk that holds the pixel column or row `camera`: the floor of
/// `camera / 512`, so that pixel `-1` lies in chunk `-1`.
pub open spec fn camera_chunk(camera: int) -> int {
    camera / CHUNK_PIXELS as int
}

/// The chunk of a pixel is the chunk of the tile that holds the pixel: with
/// tiles of 32 pixels and chunks of 16 tiles, pixel `p` lies in the tile
/// `p / 32`, and that tile in the chunk `(p / 32) / 16`.
pub proof fn lemma_camera_chunk_is_chunk_of_tile(camera: int)
    ensures
        camera_chunk(camera) == crate::coords::chunk_of(camera / crate::coords::TILE_PIXELS as int),
        camera == camera_chunk(camera) * 512 + crate::coords::local_of(
            camera / crate::coords::TILE_PIXELS as int,
        ) * 32 + camera % 32,
        0 <= crate::coords::local_of(camera / crate::coords::TILE_PIXELS as int) < 16,
{
}

/// The chunk `chunk` alone if it is not among `spawned`, nothing if it is.
pub open spec fn if_missing(spawned: Set<(int, int)>, chunk: ChunkCoord) -> Seq<ChunkCoord> {
    if spawned.contains(chunk.key()) {
        Seq::empty()
    } else {
        seq![chunk]
    }
}

/// Home of the conversions from camera positions to chunk positions and of
/// the choice of chunks to generate.
pub struct WorldGenerationPlugin;

impl WorldGenerationPlugin {
    /// The chunk that holds the pixel `(camera_x, camera_y)`.
    pub fn camera_pos_to_chunk_pos(camera_x: i32, camera_y: i32) -> (c: ChunkCoord)
        ensures
            c.x == camera_chunk(camera_x as int),
            c.y == camera_chunk(camera_y as int),
    {
        ChunkCoord { x: chunk_of_pixel(camera_x), y: chunk_of_pixel(camera_y) }
    }

    /// The block position of the pixel `(camera_x, camera_y)`: the position
    /// of the cell of 512 pixels a side that holds it, which is its chunk
    /// position.
    pub fn camera_pos_to_block_pos(camera_x: i32, camera_y: i32) -> (c: ChunkCoord)
        ensures
            c.x == camera_chunk(camera_x as int),
            c.y == camera_chunk(camera_y as int),
    {
        ChunkCoord { x: chunk_of_pixel(camera_x), y: chunk_of_pixel(camera_y) }
    }

    /// The chunks to generate now: of the two chunks kept around the
    /// origin, `(0, 0)` and `(-1, 0)`, those that are not on record yet, in
    /// that order.
    pub fn chunks_to_spawn(manager: &ChunkManager) -> (missing: Vec<ChunkCoord>)
        ensures
            missing@ == if_missing(manager.spawned(), ChunkCoord { x: 0, y: 0 }) + if_missing(
                manager.spawned(),
                ChunkCoord { x: -1i32, y: 0 },
            ),
    {
        let first = ChunkCoord { x: 0, y: 0 };
        let second = ChunkCoord { x: -1, y: 0 };
        let mut missing: Vec<ChunkCoord> = Vec::new();
        if !manager.is_spawned(first) {
            missing.push(first);
        }
        if !manager.is_spawned(second) {
            missing.push(second);
        }
        proof {
            assert(missing@ =~= if_missing(manager.spawned(), first) + if_missing(
                manager.spawned(),
                second,
            ));
        }
        missing
    }
}

/// Floor of `camera / 512`.
fn chunk_of_pixel(camera: i32) -> (q: i32)
    ensures
        q == camera_chunk(camera as int),
{
    match camera.checked_div_euclid(512) {
        Some(q) => q,
        None => 0,
    }
}

} // verus!
