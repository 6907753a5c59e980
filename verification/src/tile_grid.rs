//! The 16 by 16 grid of four-bit masks that a chunk owns.

use vstd::prelude::*;
use crate::terrain::LAND_MARKER;

verus! {

/// One mask per tile of a chunk, addressed as `bits[x][y]`.
#[derive(Clone, Copy, Debug)]
pub struct TileBitGrid {
    pub bits: [[u8; 16]; 16],
}

impl TileBitGrid {
    /// The mask at column `x`, row `y`.
    pub open spec fn at(self, x: int, y: int) -> u8 {
        self.bits[x][y]
    }

    /// Whether every mask fits in four bits.
    pub open spec fn is_four_bit(self) -> bool {
        forall|x: int, y: int| 0 <= x < 16 && 0 <= y < 16 ==> #[trigger] self.at(x, y) <= 0b1111
    }

    /// Whether two grids hold the same mask at every tile.
    pub open spec fn same_masks(self, other: TileBitGrid) -> bool {
        forall|x: int, y: int|
            0 <= x < 16 && 0 <= y < 16 ==> #[trigger] self.at(x, y) == other.at(x, y)
    }

    /// A grid whose tiles all hold the mask of a tile that has no differing
    /// neighbour yet.
    pub fn new() -> (grid: TileBitGrid)
        ensures
            forall|x: int, y: int| 0 <= x < 16 && 0 <= y < 16 ==> grid.at(x, y) == LAND_MARKER,
            grid.is_four_bit(),
    {
        TileBitGrid { bits: [[LAND_MARKER; 16]; 16] }
    }

    /// Reads the mask at column `x`, row `y`.
    pub fn read(&self, x: usize, y: usize) -> (mask: u8)
        requires
            x < 16,
            y < 16,
        ensures
            mask == self.at(x as int, y as int),
    {
        self.bits[x][y]
    }

    /// Writes `mask` at column `x`, row `y` and leaves every other tile as it
    /// was.
    pub fn write(&mut self, x: usize, y: usize, mask: u8)
        requires
            x < 16,
            y < 16,
        ensures
            final(self).at(x as int, y as int) == mask,
            forall|i: int, j: int|
                0 <= i < 16 && 0 <= j < 16 && !(i == x && j == y) ==> final(self).at(i, j)
                    == old(self).at(i, j),
            old(self).is_four_bit() && mask <= 0b1111 ==> final(self).is_four_bit(),
    {
        self.bits[x][y] = mask;
        proof {
            if old(self).is_four_bit() && mask <= 0b1111 {
                assert forall|i: int, j: int| 0 <= i < 16 && 0 <= j < 16 implies #[trigger] self.at(
                    i,
                    j,
                ) <= 0b1111 by {
                    if !(i == x && j == y) {
                        assert(self.at(i, j) == old(self).at(i, j));
                    }
                }
            }
        }
    }

    /// A copy of the grid as it is now.
    pub fn snapshot(&self) -> (copy: TileBitGrid)
        ensures
            copy == *self,
    {
        *self
    }

    /// Puts back the masks of an earlier snapshot.
    pub fn restore(&mut self, snapshot: &TileBitGrid)
        ensures
            *final(self) == *snapshot,
    {
        *self = *snapshot;
    }
}

/// The masks most recently written, by local tile position, whatever chunk
/// the tile belongs to.
#[derive(Clone, Copy, Debug)]
pub struct Data {
    pub chunk_bits: [[u8; 16]; 16],
}

impl Data {
    /// Records that the tile at column `x`, row `y` now shows `mask`.
    pub fn record(&mut self, x: usize, y: usize, mask: u8)
        requires
            x < 16,
            y < 16,
        ensures
            final(self).chunk_bits[x as int][y as int] == mask,
            forall|i: int, j: int|
                0 <= i < 16 && 0 <= j < 16 && !(i == x && j == y) ==> final(self).chunk_bits[i][j]
                    == old(self).chunk_bits[i][j],
    {
        self.chunk_bits[x][y] = mask;
    }
}

impl Default for Data {
    fn default() -> (data: Data)
        ensures
            forall|x: int, y: int| 0 <= x < 16 && 0 <= y < 16 ==> data.chunk_bits[x][y] == 0,
    {
        Data { chunk_bits: [[0u8; 16]; 16] }
    }
}

} // verus!
