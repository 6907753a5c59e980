//! The hash collections that remember which chunks exist and what their
//! grids hold. Their behaviour is stated here, not proved.

use vstd::prelude::*;
use crate::coords::ChunkCoord;
use crate::tile_grid::TileBitGrid;

verus! {

/// `bevy::utils::HashMap`, the hash map of the `hashbrown` crate, from chunk
/// coordinate (`IVec2`) to the grid of that chunk. Nothing of it is visible
/// here but the entries that `grid_store_entries` names.
#[verifier::external_body]
pub struct GridStore {
    inner: bevy::utils::HashMap<bevy::math::IVec2, TileBitGrid>,
}

/// `bevy::utils::HashSet`, the hash set of the `hashbrown` crate, of chunk
/// coordinates (`IVec2`). Nothing of it is visible here but the members that
/// `coord_set_members` names.
#[verifier::external_body]
pub struct CoordSet {
    inner: bevy::utils::HashSet<bevy::math::IVec2>,
}

/// The entries of a `GridStore`, keyed by the chunk coordinate as a pair.
pub uninterp spec fn grid_store_entries(store: GridStore) -> Map<(int, int), TileBitGrid>;

/// The members of a `CoordSet`, each as a pair.
pub uninterp spec fn coord_set_members(set: CoordSet) -> Set<(int, int)>;

/// The map that holds no grid.
pub open spec fn no_grids() -> Map<(int, int), TileBitGrid> {
    Map::empty()
}

/// The set that holds no coordinate.
pub open spec fn no_coords() -> Set<(int, int)> {
    Set::empty()
}

/// `hashbrown::HashMap::new`: a map without entries.
#[verifier::external_body]
pub(crate) fn grid_store_new() -> (store: GridStore)
    ensures
        grid_store_entries(store) == no_grids(),
{
    GridStore { inner: bevy::utils::HashMap::new() }
}

/// `hashbrown::HashMap::get`: the value stored under the key, if the key is
/// present; the map is not changed.
#[verifier::external_body]
pub(crate) fn grid_store_get(store: &GridStore, coord: ChunkCoord) -> (grid: Option<TileBitGrid>)
    ensures
        grid is Some <==> grid_store_entries(*store).dom().contains(coord.key()),
        grid matches Some(g) ==> g == grid_store_entries(*store)[coord.key()],
{
    store.inner.get(&bevy::math::IVec2::new(coord.x, coord.y)).copied()
}

/// `hashbrown::HashMap::insert`: afterwards the key maps to the new value,
/// whether or not it was present, and every other entry is as before.
#[verifier::external_body]
pub(crate) fn grid_store_insert(store: &mut GridStore, coord: ChunkCoord, grid: TileBitGrid)
    ensures
        grid_store_entries(*final(store)) == grid_store_entries(*old(store)).insert(
            coord.key(),
            grid,
        ),
{
    store.inner.insert(bevy::math::IVec2::new(coord.x, coord.y), grid);
}

/// `hashbrown::HashSet::new`: a set without members.
#[verifier::external_body]
pub(crate) fn coord_set_new() -> (set: CoordSet)
    ensures
        coord_set_members(set) == no_coords(),
{
    CoordSet { inner: bevy::utils::HashSet::new() }
}

/// `hashbrown::HashSet::contains`: whether the value is a member; the set is
/// not changed.
#[verifier::external_body]
pub(crate) fn coord_set_contains(set: &CoordSet, coord: ChunkCoord) -> (present: bool)
    ensures
        present == coord_set_members(*set).contains(coord.key()),
{
    set.inner.contains(&bevy::math::IVec2::new(coord.x, coord.y))
}

/// `hashbrown::HashSet::insert`: afterwards the value is a member and every
/// other member is as before; the result tells whether it was new.
#[verifier::external_body]
pub(crate) fn coord_set_insert(set: &mut CoordSet, coord: ChunkCoord) -> (fresh: bool)
    ensures
        coord_set_members(*final(set)) == coord_set_members(*old(set)).insert(coord.key()),
        fresh == !coord_set_members(*old(set)).contains(coord.key()),
{
    set.inner.insert(bevy::math::IVec2::new(coord.x, coord.y))
}

} // verus!
