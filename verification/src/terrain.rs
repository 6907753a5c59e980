//! Terrain classes and the four-bit marker each class stamps on its tiles.

use vstd::prelude::*;

verus! {

/// Mask of a tile whose four bits are all set: the marker of `Land`, and the
/// value of every cell of a grid that has not been generated yet.
pub const LAND_MARKER: u8 = 0b1111;

/// Mask of a tile whose four bits are all clear: the marker of `Water`.
pub const WATER_MARKER: u8 = 0b0000;

/// The mutually exclusive categories a tile can belong to. More may be
/// added: the masks only ever say whether a neighbour is land.
#[non_exhaustive]
#[derive(Clone, Copy, Debug, PartialEq, Eq, Structural)]
pub enum TerrainClass {
    Land,
    Water,
}

impl TerrainClass {
    /// The mask a freshly placed tile of this class starts with, and the bits
    /// it hands to its neighbours.
    pub open spec fn marker_spec(self) -> u8 {
        match self {
            TerrainClass::Land => LAND_MARKER,
            TerrainClass::Water => WATER_MARKER,
        }
    }

    #[verifier::when_used_as_spec(marker_spec)]
    pub fn marker(self) -> (m: u8)
        ensures
            m == self.marker_spec(),
            m <= 0b1111,
    {
        match self {
            TerrainClass::Land => LAND_MARKER,
            TerrainClass::Water => WATER_MARKER,
        }
    }

    pub open spec fn is_land_spec(self) -> bool {
        self == TerrainClass::Land
    }

    #[verifier::when_used_as_spec(is_land_spec)]
    pub fn is_land(self) -> (b: bool)
        ensures
            b == (self == TerrainClass::Land),
    {
        match self {
            TerrainClass::Land => true,
            TerrainClass::Water => false,
        }
    }

    pub open spec fn is_water_spec(self) -> bool {
        self == TerrainClass::Water
    }

    #[verifier::when_used_as_spec(is_water_spec)]
    pub fn is_water(self) -> (b: bool)
        ensures
            b == (self == TerrainClass::Water),
    {
        match self {
            TerrainClass::Land => false,
            TerrainClass::Water => true,
        }
    }
}

} // verus!
