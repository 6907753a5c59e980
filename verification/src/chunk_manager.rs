//! The record of generated chunks of one dimension.

use vstd::prelude::*;
use crate::chunk_store::{
    coord_set_contains, coord_set_insert, coord_set_members, coord_set_new, grid_store_entries,
    grid_store_get, grid_store_insert, grid_store_new, no_coords, no_grids, CoordSet, GridStore,
};
use crate::coords::{key_in_range, ChunkCoord};
use crate::tile_grid::TileBitGrid;

verus! {

/// Which chunks of a dimension have been generated, and the finished grid of
/// each.
pub struct ChunkManager {
    spawned_chunks: CoordSet,
    chunk_tile_bit_grid: GridStore,
}

impl ChunkManager {
    /// The coordinates of the generated chunks.
    pub closed spec fn spawned(self) -> Set<(int, int)> {
        coord_set_members(self.spawned_chunks)
    }

    /// The grid of each generated chunk.
    pub closed spec fn grids(self) -> Map<(int, int), TileBitGrid> {
        grid_store_entries(self.chunk_tile_bit_grid)
    }

    /// A coordinate has a grid exactly when it is marked as generated, and
    /// every coordinate on record is one that `i32` coordinates can address.
    pub open spec fn wf(self) -> bool {
        &&& self.grids().dom() == self.spawned()
        &&& forall|key: (int, int)| #[trigger] self.grids().dom().contains(key) ==> key_in_range(key)
    }

    /// A manager that has no chunk on record.
    pub fn new() -> (manager: ChunkManager)
        ensures
            manager.wf(),
            manager.spawned() == no_coords(),
            manager.grids() == no_grids(),
    {
        ChunkManager { spawned_chunks: coord_set_new(), chunk_tile_bit_grid: grid_store_new() }
    }

    /// Whether the chunk at `coord` has been generated.
    pub fn is_spawned(&self, coord: ChunkCoord) -> (spawned: bool)
        ensures
            spawned == self.spawned().contains(coord.key()),
    {
        coord_set_contains(&self.spawned_chunks, coord)
    }

    /// The finished grid of the chunk at `coord`, if that chunk has been
    /// generated.
    pub fn grid(&self, coord: ChunkCoord) -> (grid: Option<TileBitGrid>)
        ensures
            grid is Some <==> self.grids().dom().contains(coord.key()),
            grid matches Some(g) ==> g == self.grids()[coord.key()],
    {
        grid_store_get(&self.chunk_tile_bit_grid, coord)
    }

    /// Replaces the grid of a chunk that is already on record.
    pub(crate) fn patch(&mut self, coord: ChunkCoord, grid: TileBitGrid)
        requires
            old(self).grids().dom().contains(coord.key()),
        ensures
            final(self).grids() == old(self).grids().insert(coord.key(), grid),
            final(self).spawned() == old(self).spawned(),
            old(self).wf() ==> final(self).wf(),
    {
        grid_store_insert(&mut self.chunk_tile_bit_grid, coord, grid);
        proof {
            assert(self.grids().dom() =~= old(self).grids().dom());
        }
    }

    /// Puts a finished chunk on record.
    pub(crate) fn record(&mut self, coord: ChunkCoord, grid: TileBitGrid)
        requires
            old(self).wf(),
        ensures
            final(self).wf(),
            final(self).grids() == old(self).grids().insert(coord.key(), grid),
            final(self).spawned() == old(self).spawned().insert(coord.key()),
    {
        grid_store_insert(&mut self.chunk_tile_bit_grid, coord, grid);
        let _ = coord_set_insert(&mut self.spawned_chunks, coord);
        proof {
            assert(self.grids().dom() =~= self.spawned());
        }
    }

    /// Makes `next` the manager in use and hands back the one it replaces,
    /// in one step.
    pub fn swap(&mut self, next: ChunkManager) -> (previous: ChunkManager)
        ensures
            *final(self) == next,
            previous == *old(self),
    {
        let mut other = next;
        core::mem::swap(self, &mut other);
        other
    }
}

} // verus!
