//! Smoothing of a grid of tile variants: a tile surrounded often enough by
//! one other variant takes that variant.

use vstd::prelude::*;
use crate::world_generation::WorldGenerationPlugin;

verus! {

/// The value of a cell that is not to be changed.
pub const UNSET_TILE: u32 = 10000;

/// What the look around a tile has found so far.
pub struct SmoothScan {
    /// How often a neighbour repeated the variant remembered.
    pub count: int,
    /// The variant remembered: the last one that was neither the tile's own
    /// nor the one remembered before.
    pub previous: u32,
    /// The variant to take, once the count has reached the threshold.
    pub smooth: u32,
}

/// The look before any neighbour was seen.
pub open spec fn scan_start() -> SmoothScan {
    SmoothScan { count: 0, previous: UNSET_TILE, smooth: UNSET_TILE }
}

/// The look after the `n`-th cell of the three by three block around
/// `(x, y)` was seen; the block is read row by row, from `(x - 1, y - 1)`.
/// A cell off the grid or with the tile's own variant changes nothing. A
/// cell with the variant remembered raises the count, and with the count at
/// the threshold `k` or above its variant becomes the one to take. Any other
/// cell is remembered in place of the one before.
pub open spec fn scan_step(grid: [[u32; 16]; 16], x: int, y: int, k: int, st: SmoothScan, n: int)
    -> SmoothScan {
    let nx = x + n % 3 - 1;
    let ny = y + n / 3 - 1;
    if 0 <= nx < 16 && 0 <= ny < 16 {
        let adj = grid[nx][ny];
        if adj == grid[x][y] {
            st
        } else if adj == st.previous {
            SmoothScan {
                count: st.count + 1,
                previous: st.previous,
                smooth: if st.count + 1 >= k {
                    adj
                } else {
                    st.smooth
                },
            }
        } else {
            SmoothScan { count: st.count, previous: adj, smooth: st.smooth }
        }
    } else {
        st
    }
}

/// The look after the first `n` cells of the block around `(x, y)`.
pub open spec fn scan_upto(grid: [[u32; 16]; 16], x: int, y: int, k: int, n: int) -> SmoothScan
    decreases n,
{
    if n <= 0 {
        scan_start()
    } else {
        scan_step(grid, x, y, k, scan_upto(grid, x, y, k, n - 1), n - 1)
    }
}

/// The smoothed value for the tile at `(x, y)`: the variant to take if the
/// count reached the threshold `k`, and `UNSET_TILE` if it did not.
pub open spec fn smoothed(grid: [[u32; 16]; 16], x: int, y: int, k: int) -> u32 {
    let st = scan_upto(grid, x, y, k, 9);
    if st.count >= k {
        st.smooth
    } else {
        UNSET_TILE
    }
}

impl WorldGenerationPlugin {
    /// Smooths a grid of tile variants, addressed as `grid[x][y]`, with the
    /// threshold `k`. The result is addressed as `result[y][x]`; a cell that
    /// holds `UNSET_TILE` stands for a tile that keeps its variant.
    pub fn smooth_terrain(k: i8, tile_index_grid: &[[u32; 16]; 16]) -> (smooth_grid: [[u32; 16];
        16])
        ensures
            forall|x: int, y: int|
                0 <= x < 16 && 0 <= y < 16 ==> #[trigger] smooth_grid[y][x] == smoothed(
                    *tile_index_grid,
                    x,
                    y,
                    k as int,
                ),
    {
        let mut smooth_grid: [[u32; 16]; 16] = [[UNSET_TILE; 16]; 16];
        let mut y: usize = 0;
        while y < 16
            invariant
                y <= 16,
                forall|a: int, b: int|
                    0 <= a < 16 && 0 <= b < y ==> #[trigger] smooth_grid[b][a] == smoothed(
                        *tile_index_grid,
                        a,
                        b,
                        k as int,
                    ),
                forall|a: int, b: int|
                    0 <= a < 16 && y <= b < 16 ==> #[trigger] smooth_grid[b][a] == UNSET_TILE,
            decreases 16 - y,
        {
            let mut x: usize = 0;
            while x < 16
                invariant
                    x <= 16,
                    y < 16,
                    forall|a: int, b: int|
                        0 <= a < 16 && 0 <= b < y ==> #[trigger] smooth_grid[b][a] == smoothed(
                            *tile_index_grid,
                            a,
                            b,
                            k as int,
                        ),
                    forall|a: int|
                        0 <= a < x ==> #[trigger] smooth_grid[y as int][a] == smoothed(
                            *tile_index_grid,
                            a,
                            y as int,
                            k as int,
                        ),
                    forall|a: int| x <= a < 16 ==> #[trigger] smooth_grid[y as int][a] == UNSET_TILE,
                    forall|a: int, b: int|
                        0 <= a < 16 && y < b < 16 ==> #[trigger] smooth_grid[b][a] == UNSET_TILE,
                decreases 16 - x,
            {
                let value: u32 = smoothed_tile(k, tile_index_grid, x, y);
                let ghost before = smooth_grid;
                smooth_grid[y][x] = value;
                proof {
                    assert forall|a: int, b: int|
                        0 <= a < 16 && 0 <= b < y implies #[trigger] smooth_grid[b][a] == smoothed(
                        *tile_index_grid,
                        a,
                        b,
                        k as int,
                    ) by {
                        assert(smooth_grid[b][a] == before[b][a]);
                    }
                    assert forall|a: int, b: int|
                        0 <= a < 16 && y < b < 16 implies #[trigger] smooth_grid[b][a]
                        == UNSET_TILE by {
                        assert(smooth_grid[b][a] == before[b][a]);
                    }
                }
                x = x + 1;
            }
            y = y + 1;
        }
        smooth_grid
    }
}

/// Looks around the tile at `(x, y)` and gives its smoothed value.
fn smoothed_tile(k: i8, grid: &[[u32; 16]; 16], x: usize, y: usize) -> (value: u32)
    requires
        x < 16,
        y < 16,
    ensures
        value == smoothed(*grid, x as int, y as int, k as int),
{
    let current: u32 = grid[x][y];
    let mut adjacent_count: i8 = 0;
    let mut previous_tile: u32 = UNSET_TILE;
    let mut smooth_tile: u32 = UNSET_TILE;
    let mut n: usize = 0;
    while n < 9
        invariant
            n <= 9,
            x < 16,
            y < 16,
            current == grid[x as int][y as int],
            0 <= adjacent_count <= n,
            scan_upto(*grid, x as int, y as int, k as int, n as int) == (SmoothScan {
                count: adjacent_count as int,
                previous: previous_tile,
                smooth: smooth_tile,
            }),
        decreases 9 - n,
    {
        let col: usize = x + n % 3;
        let row: usize = y + n / 3;
        if 1 <= col && col <= 16 && 1 <= row && row <= 16 {
            let adj_tile: u32 = grid[col - 1][row - 1];
            if adj_tile != current {
                if adj_tile == previous_tile {
                    adjacent_count = adjacent_count + 1;
                    if adjacent_count >= k {
                        smooth_tile = adj_tile;
                    }
                } else {
                    previous_tile = adj_tile;
                }
            }
        }
        n = n + 1;
    }
    if adjacent_count >= k {
        smooth_tile
    } else {
        UNSET_TILE
    }
}

} // verus!
