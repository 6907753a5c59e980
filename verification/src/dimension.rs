//! Dimensions: each has a seed and a chunk manager of its own, and exactly
//! one manager is in use at a time.

use vstd::prelude::*;
use crate::chunk_manager::ChunkManager;
use crate::chunk_store::{no_coords, no_grids};

verus! {

/// The seed a dimension's terrain is generated from.
#[derive(Clone, Copy, Debug, PartialEq, Eq, Structural)]
pub struct GenerationSeed {
    pub seed: u32,
}

/// A request for a new dimension.
#[derive(Clone, Copy, Debug, PartialEq, Eq, Structural)]
pub struct DimensionSpawnEvent {
    /// The seed asked for, if any.
    pub seed: Option<u32>,
    /// Whether the new dimension becomes the one in use at once.
    pub swap_to_dim_now: bool,
}

/// Home of the rules on making and entering dimensions.
pub struct DimensionPlugin;

impl DimensionPlugin {
    /// What a new dimension starts with: the seed asked for, or 0 where none
    /// was, and a manager with no chunk on record. The flag tells whether
    /// the dimension is entered at once.
    pub fn new_dim_with_params(event: &DimensionSpawnEvent) -> (made: (
        GenerationSeed,
        ChunkManager,
        bool,
    ))
        ensures
            made.0.seed == (match event.seed {
                Some(seed) => seed,
                None => 0,
            }),
            made.1.wf(),
            made.1.spawned() == no_coords(),
            made.1.grids() == no_grids(),
            made.2 == event.swap_to_dim_now,
    {
        let seed: u32 = match event.seed {
            Some(seed) => seed,
            None => 0,
        };
        (GenerationSeed { seed }, ChunkManager::new(), event.swap_to_dim_now)
    }

    /// Enters a dimension: its manager becomes the one in use, and the
    /// manager of the dimension that is left is handed back to be kept with
    /// it. Nothing sees a state in between.
    pub fn handle_dimension_swap_events(in_use: &mut ChunkManager, entered: ChunkManager) -> (left:
        ChunkManager)
        ensures
            *final(in_use) == entered,
            left == *old(in_use),
    {
        in_use.swap(entered)
    }
}

} // verus!
