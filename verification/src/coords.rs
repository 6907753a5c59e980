//! Chunk coordinates, tile coordinates and the pixel positions they stand for.

use vstd::prelude::*;
use crate::autotile::Direction;

verus! {

/// Tiles along one side of a chunk.
pub const CHUNK_SIZE: usize = 16;

/// Pixels along one side of a tile.
pub const TILE_PIXELS: i64 = 32;

/// Integer coordinate of a chunk in the infinite chunk lattice.
#[derive(Clone, Copy, Debug, PartialEq, Eq, Hash, Structural)]
pub struct ChunkCoord {
    pub x: i32,
    pub y: i32,
}

impl ChunkCoord {
    pub fn new(x: i32, y: i32) -> (c: ChunkCoord)
        ensures
            c.x == x,
            c.y == y,
    {
        ChunkCoord { x, y }
    }

    /// The coordinate as a pair of mathematical integers.
    pub open spec fn key(self) -> (int, int) {
        (self.x as int, self.y as int)
    }

    /// The chunk `dx` columns and `dy` rows away, unless it lies outside the
    /// lattice that `i32` coordinates can address.
    pub fn shifted(self, dx: i32, dy: i32) -> (n: Option<ChunkCoord>)
        ensures
            n is Some <==> (i32::MIN <= self.x + dx <= i32::MAX && i32::MIN <= self.y + dy
                <= i32::MAX),
            n matches Some(c) ==> c.x == self.x + dx && c.y == self.y + dy,
    {
        match (self.x.checked_add(dx), self.y.checked_add(dy)) {
            (Some(x), Some(y)) => Some(ChunkCoord { x, y }),
            _ => None,
        }
    }
}

/// Whether a key names a chunk that `i32` coordinates can address.
pub open spec fn key_in_range(key: (int, int)) -> bool {
    i32::MIN <= key.0 <= i32::MAX && i32::MIN <= key.1 <= i32::MAX
}

/// Floor of `a / 16`.
pub open spec fn chunk_of(a: int) -> int {
    a / 16
}

/// `a` modulo 16, in `0..16`.
pub open spec fn local_of(a: int) -> int {
    a % 16
}

/// A tile: the chunk it lies in and its column and row inside that chunk.
/// Column and row are always below 16.
#[derive(Clone, Copy, Debug)]
pub struct TileCoordinate {
    chunk: ChunkCoord,
    x: u8,
    y: u8,
}

impl TileCoordinate {
    #[verifier::type_invariant]
    spec fn in_range(self) -> bool {
        self.x < 16 && self.y < 16
    }

    pub closed spec fn chunk_spec(&self) -> ChunkCoord {
        self.chunk
    }

    pub closed spec fn x_spec(&self) -> u8 {
        self.x
    }

    pub closed spec fn y_spec(&self) -> u8 {
        self.y
    }

    /// Column of the tile counted over the whole world.
    pub open spec fn abs_x(self) -> int {
        self.chunk_spec().x * 16 + self.x_spec()
    }

    /// Row of the tile counted over the whole world.
    pub open spec fn abs_y(self) -> int {
        self.chunk_spec().y * 16 + self.y_spec()
    }

    /// Position of the tile in the row-major scan of its chunk.
    pub open spec fn scan_index_spec(&self) -> int {
        self.y_spec() * 16 + self.x_spec()
    }

    /// The tile at column `x`, row `y` of `chunk`; `None` when `x` or `y` is
    /// not below 16.
    pub fn new(chunk: ChunkCoord, x: u8, y: u8) -> (t: Option<TileCoordinate>)
        ensures
            t is Some <==> x < 16 && y < 16,
            t matches Some(tile) ==> tile.chunk_spec() == chunk && tile.x_spec() == x
                && tile.y_spec() == y,
    {
        if x < 16 && y < 16 {
            Some(TileCoordinate { chunk, x, y })
        } else {
            None
        }
    }

    #[verifier::when_used_as_spec(chunk_spec)]
    pub fn chunk(&self) -> (c: ChunkCoord)
        ensures
            c == self.chunk_spec(),
    {
        self.chunk
    }

    #[verifier::when_used_as_spec(x_spec)]
    pub fn x(&self) -> (x: u8)
        ensures
            x == self.x_spec(),
            x < 16,
    {
        proof {
            use_type_invariant(self);
        }
        self.x
    }

    #[verifier::when_used_as_spec(y_spec)]
    pub fn y(&self) -> (y: u8)
        ensures
            y == self.y_spec(),
            y < 16,
    {
        proof {
            use_type_invariant(self);
        }
        self.y
    }

    pub fn scan_index(&self) -> (i: usize)
        ensures
            i == self.scan_index_spec(),
            i < 256,
    {
        proof {
            use_type_invariant(self);
        }
        let y: usize = self.y as usize;
        let x: usize = self.x as usize;
        y * 16 + x
    }

    /// Column and row of the tile counted over the whole world.
    pub fn absolute_tile(&self) -> (a: (i64, i64))
        ensures
            a.0 == self.abs_x(),
            a.1 == self.abs_y(),
    {
        proof {
            use_type_invariant(self);
        }
        let cx: i64 = self.chunk.x as i64;
        let cy: i64 = self.chunk.y as i64;
        (cx * 16 + self.x as i64, cy * 16 + self.y as i64)
    }

    /// Pixel position of the tile's origin: the chunk coordinate times the
    /// chunk's pixel size plus the local index times the tile's pixel size.
    pub fn world_position(&self) -> (p: (i64, i64))
        ensures
            p.0 == self.chunk_spec().x * 16 * TILE_PIXELS + self.x_spec() * TILE_PIXELS,
            p.1 == self.chunk_spec().y * 16 * TILE_PIXELS + self.y_spec() * TILE_PIXELS,
            p.0 == self.abs_x() * TILE_PIXELS,
            p.1 == self.abs_y() * TILE_PIXELS,
    {
        proof {
            use_type_invariant(self);
        }
        let cx: i64 = self.chunk.x as i64;
        let cy: i64 = self.chunk.y as i64;
        (cx * 16 * TILE_PIXELS + self.x as i64 * TILE_PIXELS, cy * 16 * TILE_PIXELS + self.y as i64
            * TILE_PIXELS)
    }

    /// The tile whose world column and row are `ax` and `ay`; `None` when its
    /// chunk lies outside the lattice that `i32` coordinates can address.
    pub fn from_absolute(ax: i64, ay: i64) -> (t: Option<TileCoordinate>)
        ensures
            t is Some <==> key_in_range((chunk_of(ax as int), chunk_of(ay as int))),
            t matches Some(tile) ==> {
                &&& tile.chunk_spec().x == chunk_of(ax as int)
                &&& tile.chunk_spec().y == chunk_of(ay as int)
                &&& tile.x_spec() == local_of(ax as int)
                &&& tile.y_spec() == local_of(ay as int)
                &&& tile.abs_x() == ax
                &&& tile.abs_y() == ay
            },
    {
        let (cx, lx) = split_absolute(ax);
        let (cy, ly) = split_absolute(ay);
        if cx < i32::MIN as i64 || cx > i32::MAX as i64 || cy < i32::MIN as i64 || cy
            > i32::MAX as i64 {
            None
        } else {
            Some(
                TileCoordinate {
                    chunk: ChunkCoord { x: cx as i32, y: cy as i32 },
                    x: lx as u8,
                    y: ly as u8,
                },
            )
        }
    }

    /// The tile one step away in `direction`, across the chunk border where
    /// the step leaves the chunk; `None` when that chunk lies outside the
    /// lattice that `i32` coordinates can address.
    pub fn neighbour(&self, direction: Direction) -> (t: Option<TileCoordinate>)
        ensures
            t is Some <==> key_in_range(
                (
                    chunk_of(self.abs_x() + direction.dx()),
                    chunk_of(self.abs_y() + direction.dy()),
                ),
            ),
            t matches Some(tile) ==> {
                &&& tile.chunk_spec().x == chunk_of(self.abs_x() + direction.dx())
                &&& tile.chunk_spec().y == chunk_of(self.abs_y() + direction.dy())
                &&& tile.x_spec() == local_of(self.abs_x() + direction.dx())
                &&& tile.y_spec() == local_of(self.abs_y() + direction.dy())
                &&& tile.abs_x() == self.abs_x() + direction.dx()
                &&& tile.abs_y() == self.abs_y() + direction.dy()
            },
    {
        let (dx, dy) = direction.offset();
        let (ax, ay) = self.absolute_tile();
        TileCoordinate::from_absolute(ax + dx as i64, ay + dy as i64)
    }
}

/// Floor of `a / 16` and the remainder in `0..16`.
fn split_absolute(a: i64) -> (qr: (i64, i64))
    ensures
        qr.0 == chunk_of(a as int),
        qr.1 == local_of(a as int),
        0 <= qr.1 < 16,
{
    let q: i64 = match a.checked_div_euclid(16) {
        Some(q) => q,
        None => 0,
    };
    let r: i64 = match a.checked_rem_euclid(16) {
        Some(r) => r,
        None => 0,
    };
    (q, r)
}

} // verus!
