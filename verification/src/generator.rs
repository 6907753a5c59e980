//! Generation of one chunk: every tile is stamped with the marker of its
//! terrain class and speaks to the neighbours that are already there, in
//! this chunk and in the chunks around it.

use vstd::prelude::*;
use crate::autotile::{propagate, propagate_spec, Direction};
use crate::chunk_manager::ChunkManager;
use crate::coords::ChunkCoord;
use crate::terrain::{TerrainClass, LAND_MARKER};
use crate::tile_grid::TileBitGrid;

verus! {

/// The terrain class of every tile of one chunk, addressed as
/// `classes[x][y]`.
#[derive(Clone, Copy, Debug)]
pub struct ClassGrid {
    pub classes: [[TerrainClass; 16]; 16],
}

impl ClassGrid {
    /// The class at column `x`, row `y`.
    pub open spec fn class_at(self, x: int, y: int) -> TerrainClass {
        self.classes[x][y]
    }

    /// The marker of the class at column `x`, row `y`.
    pub open spec fn marker_at(self, x: int, y: int) -> u8 {
        self.class_at(x, y).marker_spec()
    }

    /// A chunk whose tiles all have the class `class`.
    pub fn filled(class: TerrainClass) -> (grid: ClassGrid)
        ensures
            forall|x: int, y: int| 0 <= x < 16 && 0 <= y < 16 ==> grid.class_at(x, y) == class,
    {
        ClassGrid { classes: [[class; 16]; 16] }
    }

    /// Reads the class at column `x`, row `y`.
    pub fn get(&self, x: usize, y: usize) -> (class: TerrainClass)
        requires
            x < 16,
            y < 16,
        ensures
            class == self.class_at(x as int, y as int),
    {
        self.classes[x][y]
    }

    /// Sets the class at column `x`, row `y` and leaves every other tile as
    /// it was.
    pub fn set(&mut self, x: usize, y: usize, class: TerrainClass)
        requires
            x < 16,
            y < 16,
        ensures
            final(self).class_at(x as int, y as int) == class,
            forall|i: int, j: int|
                0 <= i < 16 && 0 <= j < 16 && !(i == x && j == y) ==> final(self).class_at(i, j)
                    == old(self).class_at(i, j),
    {
        self.classes[x][y] = class;
    }
}

/// Notice that the tile at column `x`, row `y` of `chunk` now shows the
/// variant `variant`.
#[derive(Clone, Copy, Debug, PartialEq, Eq, Structural)]
pub struct TileUpdate {
    pub chunk: ChunkCoord,
    pub x: u8,
    pub y: u8,
    pub variant: u8,
}

impl TileUpdate {
    /// Whether the notice names a tile of a chunk and a variant of four
    /// bits.
    pub open spec fn in_range(self) -> bool {
        self.x < 16 && self.y < 16 && self.variant <= 0b1111
    }
}

/// Why a chunk was not generated.
#[derive(Clone, Copy, Debug, PartialEq, Eq, Structural)]
pub enum GenerationError {
    /// The chunk is already on record; a coordinate generates at most once.
    AlreadySpawned,
}

/// Column of the tile `(key, x)` counted from the origin of chunk `chunk`.
pub open spec fn rel(chunk: int, key: int, x: int) -> int {
    (key - chunk) * 16 + x
}

/// Position in the row-major scan of a chunk.
pub open spec fn scan_index(x: int, y: int) -> int {
    y * 16 + x
}

/// Whether the tile placed at `(bx, by)` of chunk `chunk` speaks to the tile
/// at `(x, y)` of chunk `key` as its neighbour in `direction`: that tile lies
/// one step away in that direction, and either belongs to another chunk or
/// was placed earlier in the same scan.
pub open spec fn speaks(
    chunk: (int, int),
    bx: int,
    by: int,
    key: (int, int),
    x: int,
    y: int,
    direction: Direction,
) -> bool {
    let rx = rel(chunk.0, key.0, x);
    let ry = rel(chunk.1, key.1, y);
    &&& rx == bx + direction.dx()
    &&& ry == by + direction.dy()
    &&& (key != chunk || scan_index(rx, ry) < scan_index(bx, by))
}

/// What a tile holds after a placed tile with mask `new_bits` has or has not
/// spoken to it in `direction`.
pub open spec fn spoken(new_bits: u8, before: u8, direction: Direction, speaks: bool) -> u8 {
    if speaks {
        propagate_spec(new_bits, before, direction)
    } else {
        before
    }
}

/// What the tile at `(x, y)` of chunk `key` holds after the tile at
/// `(bx, by)` of chunk `chunk` has been placed with mask `new_bits` and has
/// gone through the directions whose rank is below `ranks`.
pub open spec fn neighbour_update_upto(
    chunk: (int, int),
    bx: int,
    by: int,
    new_bits: u8,
    key: (int, int),
    x: int,
    y: int,
    before: u8,
    ranks: int,
) -> u8
    decreases ranks,
{
    if ranks <= 0 {
        before
    } else {
        let d = Direction::of_rank(ranks - 1);
        spoken(
            new_bits,
            neighbour_update_upto(chunk, bx, by, new_bits, key, x, y, before, ranks - 1),
            d,
            speaks(chunk, bx, by, key, x, y, d),
        )
    }
}

/// What the tile at `(x, y)` of chunk `key` holds after the tile at
/// `(bx, by)` of chunk `chunk` has been placed and has spoken to all its
/// neighbours: if it is one step away from the placed tile, in another
/// chunk or placed earlier, the update for that step; else what it held.
pub open spec fn neighbour_update(
    chunk: (int, int),
    bx: int,
    by: int,
    new_bits: u8,
    key: (int, int),
    x: int,
    y: int,
    before: u8,
) -> u8 {
    let rx = rel(chunk.0, key.0, x);
    let ry = rel(chunk.1, key.1, y);
    match Direction::from_offset_spec(rx - bx, ry - by) {
        Some(d) => if key != chunk || scan_index(rx, ry) < scan_index(bx, by) {
            propagate_spec(new_bits, before, d)
        } else {
            before
        },
        None => before,
    }
}

/// Going through all eight directions updates exactly the tile's one
/// direction, if it has one.
pub proof fn lemma_neighbour_update_unfolds(
    chunk: (int, int),
    bx: int,
    by: int,
    new_bits: u8,
    key: (int, int),
    x: int,
    y: int,
    before: u8,
)
    ensures
        neighbour_update_upto(chunk, bx, by, new_bits, key, x, y, before, 8) == neighbour_update(
            chunk,
            bx,
            by,
            new_bits,
            key,
            x,
            y,
            before,
        ),
{
    reveal_with_fuel(neighbour_update_upto, 9);
}

/// The mask that chunk `key` holds at `(x, y)` while chunk `chunk` is being
/// generated: the in-progress grid for the chunk itself, the grid on record
/// for any other.
pub open spec fn mask_in(
    chunk: (int, int),
    grid: TileBitGrid,
    grids: Map<(int, int), TileBitGrid>,
    key: (int, int),
    x: int,
    y: int,
) -> u8 {
    if key == chunk {
        grid.at(x, y)
    } else {
        grids[key].at(x, y)
    }
}

/// The neighbour that lies in `direction` of the tile at `(bx, by)` of
/// `chunk`, as chunk key and local position, if the placed tile speaks to
/// it: it lies in this chunk and was placed earlier, or in another chunk
/// that is on record.
pub open spec fn neighbour_target(
    chunk: (int, int),
    bx: int,
    by: int,
    direction: Direction,
    present: Set<(int, int)>,
) -> Option<((int, int), int, int)> {
    let tx = bx + direction.dx();
    let ty = by + direction.dy();
    let key = (chunk.0 + tx / 16, chunk.1 + ty / 16);
    let x = tx % 16;
    let y = ty % 16;
    if key == chunk {
        if scan_index(tx, ty) < scan_index(bx, by) {
            Some((key, x, y))
        } else {
            None
        }
    } else if present.contains(key) {
        Some((key, x, y))
    } else {
        None
    }
}

/// The notice sent when the tile at `(bx, by)` of `chunk` turns to its
/// neighbour in `direction`: one notice with the neighbour's new mask if
/// the neighbour is spoken to, none if it is skipped.
pub open spec fn notice_of(
    chunk: ChunkCoord,
    bx: int,
    by: int,
    new_bits: u8,
    grid: TileBitGrid,
    grids: Map<(int, int), TileBitGrid>,
    direction: Direction,
) -> Seq<TileUpdate> {
    match neighbour_target(chunk.key(), bx, by, direction, grids.dom()) {
        Some((key, x, y)) => seq![
            TileUpdate {
                chunk: ChunkCoord { x: key.0 as i32, y: key.1 as i32 },
                x: x as u8,
                y: y as u8,
                variant: propagate_spec(
                    new_bits,
                    mask_in(chunk.key(), grid, grids, key, x, y),
                    direction,
                ),
            },
        ],
        None => Seq::empty(),
    }
}

/// The notices sent while the tile at `(bx, by)` of `chunk` goes through the
/// directions whose rank is below `ranks`, in rank order. `grid` and `grids`
/// are the masks before the first neighbour is spoken to.
pub open spec fn neighbour_notices(
    chunk: ChunkCoord,
    bx: int,
    by: int,
    new_bits: u8,
    grid: TileBitGrid,
    grids: Map<(int, int), TileBitGrid>,
    ranks: int,
) -> Seq<TileUpdate>
    decreases ranks,
{
    if ranks <= 0 {
        Seq::empty()
    } else {
        neighbour_notices(chunk, bx, by, new_bits, grid, grids, ranks - 1) + notice_of(
            chunk,
            bx,
            by,
            new_bits,
            grid,
            grids,
            Direction::of_rank(ranks - 1),
        )
    }
}

/// The direction in which a tile is seen by the `rank`-th of the tiles
/// around it, counted in the order in which a scan places them: the row
/// below from west to east, then the same row, then the row above.
pub open spec fn writer_direction(rank: int) -> Direction {
    if rank == 0 {
        Direction::NorthEast
    } else if rank == 1 {
        Direction::North
    } else if rank == 2 {
        Direction::NorthWest
    } else if rank == 3 {
        Direction::East
    } else if rank == 4 {
        Direction::West
    } else if rank == 5 {
        Direction::SouthEast
    } else if rank == 6 {
        Direction::South
    } else {
        Direction::SouthWest
    }
}

/// What the tile at `(x, y)` of chunk `key` holds once the tile of chunk
/// `chunk` that sees it in `direction` has had its turn, given that the
/// first `placed` tiles of `chunk` have been placed and that it held
/// `before`.
pub open spec fn apply_writer(
    classes: ClassGrid,
    chunk: (int, int),
    key: (int, int),
    x: int,
    y: int,
    direction: Direction,
    placed: int,
    before: u8,
) -> u8 {
    let bx = rel(chunk.0, key.0, x) - direction.dx();
    let by = rel(chunk.1, key.1, y) - direction.dy();
    spoken(
        classes.marker_at(bx, by),
        before,
        direction,
        0 <= bx < 16 && 0 <= by < 16 && scan_index(bx, by) < placed && speaks(
            chunk,
            bx,
            by,
            key,
            x,
            y,
            direction,
        ),
    )
}

/// What the tile at `(x, y)` of chunk `key` holds when the first `placed`
/// tiles of chunk `chunk` have been placed, given that it held `initial`
/// before any of them spoke to it: `initial` updated by each tile around it
/// that has spoken to it, in the order in which they were placed.
pub open spec fn mask_after(
    classes: ClassGrid,
    chunk: (int, int),
    key: (int, int),
    x: int,
    y: int,
    initial: u8,
    placed: int,
) -> u8 {
    let m0 = apply_writer(classes, chunk, key, x, y, writer_direction(0), placed, initial);
    let m1 = apply_writer(classes, chunk, key, x, y, writer_direction(1), placed, m0);
    let m2 = apply_writer(classes, chunk, key, x, y, writer_direction(2), placed, m1);
    let m3 = apply_writer(classes, chunk, key, x, y, writer_direction(3), placed, m2);
    let m4 = apply_writer(classes, chunk, key, x, y, writer_direction(4), placed, m3);
    let m5 = apply_writer(classes, chunk, key, x, y, writer_direction(5), placed, m4);
    let m6 = apply_writer(classes, chunk, key, x, y, writer_direction(6), placed, m5);
    apply_writer(classes, chunk, key, x, y, writer_direction(7), placed, m6)
}

/// What the grid of the chunk being generated holds at `(x, y)` when its
/// first `placed` tiles have been placed.
pub open spec fn in_progress_mask(
    classes: ClassGrid,
    chunk: (int, int),
    x: int,
    y: int,
    placed: int,
) -> u8 {
    if scan_index(x, y) < placed {
        mask_after(classes, chunk, chunk, x, y, classes.marker_at(x, y), placed)
    } else {
        LAND_MARKER
    }
}

/// The finished mask at `(x, y)` of a chunk generated from `classes`.
pub open spec fn fresh_mask(classes: ClassGrid, chunk: (int, int), x: int, y: int) -> u8 {
    mask_after(classes, chunk, chunk, x, y, classes.marker_at(x, y), 256)
}

/// The mask at `(x, y)` of a chunk `key` that was on record with mask
/// `before` there, once chunk `chunk` has been generated from `classes`.
pub open spec fn patched_mask(
    classes: ClassGrid,
    chunk: (int, int),
    key: (int, int),
    x: int,
    y: int,
    before: u8,
) -> u8 {
    mask_after(classes, chunk, key, x, y, before, 256)
}

/// What chunk `key` holds at `(x, y)` when the first `placed` tiles of
/// `chunk` have been placed, `grids` being the record before generation.
pub open spec fn mask_at_time(
    classes: ClassGrid,
    chunk: (int, int),
    grids: Map<(int, int), TileBitGrid>,
    key: (int, int),
    x: int,
    y: int,
    placed: int,
) -> u8 {
    if key == chunk {
        in_progress_mask(classes, chunk, x, y, placed)
    } else {
        mask_after(classes, chunk, key, x, y, grids[key].at(x, y), placed)
    }
}

/// The notice sent when the tile at `(bx, by)` turns to its neighbour in
/// `direction` during the generation of `chunk` from `classes`, `grids`
/// being the record before generation.
pub open spec fn generation_notice(
    classes: ClassGrid,
    chunk: ChunkCoord,
    grids: Map<(int, int), TileBitGrid>,
    bx: int,
    by: int,
    direction: Direction,
) -> Seq<TileUpdate> {
    match neighbour_target(chunk.key(), bx, by, direction, grids.dom()) {
        Some((key, x, y)) => seq![
            TileUpdate {
                chunk: ChunkCoord { x: key.0 as i32, y: key.1 as i32 },
                x: x as u8,
                y: y as u8,
                variant: propagate_spec(
                    classes.marker_at(bx, by),
                    mask_at_time(classes, chunk.key(), grids, key, x, y, scan_index(bx, by)),
                    direction,
                ),
            },
        ],
        None => Seq::empty(),
    }
}

/// The notices sent while the tile at `(bx, by)` goes through the directions
/// whose rank is below `ranks`.
pub open spec fn tile_notices(
    classes: ClassGrid,
    chunk: ChunkCoord,
    grids: Map<(int, int), TileBitGrid>,
    bx: int,
    by: int,
    ranks: int,
) -> Seq<TileUpdate>
    decreases ranks,
{
    if ranks <= 0 {
        Seq::empty()
    } else {
        tile_notices(classes, chunk, grids, bx, by, ranks - 1) + generation_notice(
            classes,
            chunk,
            grids,
            bx,
            by,
            Direction::of_rank(ranks - 1),
        )
    }
}

/// The notices sent while the first `placed` tiles of `chunk` are placed:
/// for each tile in scan order, one for the tile itself with its marker,
/// then one for each neighbour it speaks to.
pub open spec fn generation_notices(
    classes: ClassGrid,
    chunk: ChunkCoord,
    grids: Map<(int, int), TileBitGrid>,
    placed: int,
) -> Seq<TileUpdate>
    decreases placed,
{
    if placed <= 0 {
        Seq::empty()
    } else {
        let bx = (placed - 1) % 16;
        let by = (placed - 1) / 16;
        generation_notices(classes, chunk, grids, placed - 1).push(
            TileUpdate {
                chunk,
                x: bx as u8,
                y: by as u8,
                variant: classes.marker_at(bx, by),
            },
        ) + tile_notices(classes, chunk, grids, bx, by, 8)
    }
}

/// Whether `after` is the record that generating `chunk` from `classes`
/// leaves when `before` was the record: the chunk is added with its fresh
/// masks, every chunk that was on record is still there with its masks
/// patched, and nothing else is.
pub open spec fn generation_outcome(
    before: Map<(int, int), TileBitGrid>,
    chunk: (int, int),
    classes: ClassGrid,
    after: Map<(int, int), TileBitGrid>,
) -> bool {
    &&& after.dom() == before.dom().insert(chunk)
    &&& forall|x: int, y: int|
        0 <= x < 16 && 0 <= y < 16 ==> #[trigger] after[chunk].at(x, y) == fresh_mask(
            classes,
            chunk,
            x,
            y,
        )
    &&& forall|key: (int, int), x: int, y: int|
        before.dom().contains(key) && key != chunk && 0 <= x < 16 && 0 <= y < 16
            ==> #[trigger] after[key].at(x, y) == patched_mask(
            classes,
            chunk,
            key,
            x,
            y,
            before[key].at(x, y),
        )
}

/// Placing one more tile changes a mask exactly as that tile's turn at its
/// neighbours says.
pub proof fn lemma_mask_after_step(
    classes: ClassGrid,
    chunk: (int, int),
    key: (int, int),
    x: int,
    y: int,
    initial: u8,
    bx: int,
    by: int,
)
    requires
        0 <= x < 16,
        0 <= y < 16,
        0 <= bx < 16,
        0 <= by < 16,
    ensures
        mask_after(classes, chunk, key, x, y, initial, scan_index(bx, by) + 1) == neighbour_update(
            chunk,
            bx,
            by,
            classes.marker_at(bx, by),
            key,
            x,
            y,
            mask_after(classes, chunk, key, x, y, initial, scan_index(bx, by)),
        ),
{
}

/// Home of chunk generation.
pub struct ChunkGenerator;

impl ChunkGenerator {
    /// Generates the chunk at `chunk` from the terrain classes of its tiles.
    ///
    /// The tiles are placed in row-major order. Each is stamped with the
    /// marker of its class and then speaks to its eight neighbours: those
    /// placed earlier in this chunk, and those in adjacent chunks that are on
    /// record, whose grids are patched in `manager`. At the end the chunk is
    /// put on record. The result holds the finished grid and, in order, a
    /// notice for every mask that was set or changed.
    ///
    /// A chunk that is already on record is refused and nothing changes.
    pub fn generate(manager: &mut ChunkManager, chunk: ChunkCoord, classes: &ClassGrid) -> (result:
        Result<(TileBitGrid, Vec<TileUpdate>), GenerationError>)
        requires
            old(manager).wf(),
        ensures
            final(manager).wf(),
            result is Err <==> old(manager).spawned().contains(chunk.key()),
            result matches Err(e) ==> {
                &&& e == GenerationError::AlreadySpawned
                &&& final(manager).grids() == old(manager).grids()
                &&& final(manager).spawned() == old(manager).spawned()
            },
            result matches Ok((grid, updates)) ==> {
                &&& generation_outcome(
                    old(manager).grids(),
                    chunk.key(),
                    *classes,
                    final(manager).grids(),
                )
                &&& final(manager).grids()[chunk.key()] == grid
                &&& final(manager).spawned() == old(manager).spawned().insert(chunk.key())
                &&& updates@ == generation_notices(*classes, chunk, old(manager).grids(), 256)
                &&& forall|i: int| 0 <= i < updates@.len() ==> (#[trigger] updates@[i]).in_range()
            },
    {
        if manager.is_spawned(chunk) {
            return Err(GenerationError::AlreadySpawned);
        }
        let ghost c = chunk.key();
        let ghost grids0 = manager.grids();
        let mut grid = TileBitGrid::new();
        let mut updates: Vec<TileUpdate> = Vec::new();
        let mut placed: usize = 0;
        while placed < 256
            invariant
                placed <= 256,
                c == chunk.key(),
                grids0 == old(manager).grids(),
                manager.wf(),
                manager.spawned() == old(manager).spawned(),
                manager.grids().dom() == grids0.dom(),
                !grids0.dom().contains(c),
                forall|x: int, y: int|
                    0 <= x < 16 && 0 <= y < 16 ==> #[trigger] grid.at(x, y) == in_progress_mask(
                        *classes,
                        c,
                        x,
                        y,
                        placed as int,
                    ),
                forall|key: (int, int), x: int, y: int|
                    grids0.dom().contains(key) && 0 <= x < 16 && 0 <= y < 16
                        ==> #[trigger] manager.grids()[key].at(x, y) == mask_after(
                        *classes,
                        c,
                        key,
                        x,
                        y,
                        grids0[key].at(x, y),
                        placed as int,
                    ),
                updates@ == generation_notices(*classes, chunk, grids0, placed as int),
            decreases 256 - placed,
        {
            let bx: usize = placed % 16;
            let by: usize = placed / 16;
            let bits: u8 = classes.get(bx, by).marker();
            let ghost grid_a = grid;
            let ghost grids_a = manager.grids();
            let ghost updates_a = updates@;
            grid.write(bx, by, bits);
            updates.push(TileUpdate { chunk, x: bx as u8, y: by as u8, variant: bits });
            let ghost grid_b = grid;
            Self::update_neighbour_tiles(bx, by, bits, &mut grid, manager, chunk, &mut updates);
            proof {
                let i = placed as int;
                assert(scan_index(bx as int, by as int) == i);
                lemma_notices_match(*classes, chunk, grids0, grid_b, grids_a, bx as int, by as int, 8);
                assert(updates@ =~= generation_notices(*classes, chunk, grids0, i + 1));
                assert forall|x: int, y: int| 0 <= x < 16 && 0 <= y < 16 implies #[trigger] grid.at(
                    x,
                    y,
                ) == in_progress_mask(*classes, c, x, y, i + 1) by {
                    assert(grid_a.at(x, y) == in_progress_mask(*classes, c, x, y, i));
                    lemma_in_progress_step(*classes, c, x, y, bx as int, by as int);
                }
                assert forall|key: (int, int), x: int, y: int|
                    grids0.dom().contains(key) && 0 <= x < 16 && 0 <= y
                        < 16 implies #[trigger] manager.grids()[key].at(x, y) == mask_after(
                    *classes,
                    c,
                    key,
                    x,
                    y,
                    grids0[key].at(x, y),
                    i + 1,
                ) by {
                    assert(grids_a[key].at(x, y) == mask_after(
                        *classes,
                        c,
                        key,
                        x,
                        y,
                        grids0[key].at(x, y),
                        i,
                    ));
                    lemma_mask_after_step(
                        *classes,
                        c,
                        key,
                        x,
                        y,
                        grids0[key].at(x, y),
                        bx as int,
                        by as int,
                    );
                }
            }
            placed = placed + 1;
        }
        manager.record(chunk, grid);
        proof {
            assert(manager.grids().dom() =~= grids0.dom().insert(c));
            lemma_notices_are_in_range(*classes, chunk, grids0, 256);
        }
        Ok((grid, updates))
    }

    /// Lets the tile just placed at `(bx, by)` of `chunk`, with mask
    /// `new_tile_bits`, speak to its neighbour in `direction`. A neighbour in
    /// this chunk is updated in `grid` if it was placed earlier in the scan;
    /// a neighbour in an adjacent chunk is updated in `manager` if that chunk
    /// is on record, and skipped if not. An update is appended to `updates`.
    pub fn update_neighbour_tile(
        bx: usize,
        by: usize,
        new_tile_bits: u8,
        direction: Direction,
        grid: &mut TileBitGrid,
        manager: &mut ChunkManager,
        chunk: ChunkCoord,
        updates: &mut Vec<TileUpdate>,
    )
        requires
            bx < 16,
            by < 16,
            old(manager).wf(),
        ensures
            final(manager).wf(),
            final(manager).spawned() == old(manager).spawned(),
            final(manager).grids().dom() == old(manager).grids().dom(),
            old(manager).grids().dom().contains(chunk.key()) ==> final(manager).grids()[chunk.key()]
                == old(manager).grids()[chunk.key()],
            forall|x: int, y: int|
                0 <= x < 16 && 0 <= y < 16 ==> #[trigger] final(grid).at(x, y) == spoken(
                    new_tile_bits,
                    old(grid).at(x, y),
                    direction,
                    speaks(chunk.key(), bx as int, by as int, chunk.key(), x, y, direction),
                ),
            forall|key: (int, int), x: int, y: int|
                old(manager).grids().dom().contains(key) && key != chunk.key() && 0 <= x < 16 && 0
                    <= y < 16 ==> #[trigger] final(manager).grids()[key].at(x, y) == spoken(
                    new_tile_bits,
                    old(manager).grids()[key].at(x, y),
                    direction,
                    speaks(chunk.key(), bx as int, by as int, key, x, y, direction),
                ),
            final(updates)@ == old(updates)@ + notice_of(
                chunk,
                bx as int,
                by as int,
                new_tile_bits,
                *old(grid),
                old(manager).grids(),
                direction,
            ),
    {
        let ghost c = chunk.key();
        let (dx, dy) = direction.offset();
        let tx: i32 = bx as i32 + dx as i32;
        let ty: i32 = by as i32 + dy as i32;
        let ox: i32 = if tx < 0 {
            -1
        } else if tx >= 16 {
            1
        } else {
            0
        };
        let oy: i32 = if ty < 0 {
            -1
        } else if ty >= 16 {
            1
        } else {
            0
        };
        let lx: usize = (tx - 16 * ox) as usize;
        let ly: usize = (ty - 16 * oy) as usize;
        proof {
            assert(tx as int / 16 == ox as int && tx as int % 16 == lx as int);
            assert(ty as int / 16 == oy as int && ty as int % 16 == ly as int);
            assert(forall|key: (int, int), x: int, y: int|
                0 <= x < 16 && 0 <= y < 16 && #[trigger] speaks(
                    c,
                    bx as int,
                    by as int,
                    key,
                    x,
                    y,
                    direction,
                ) ==> key.0 == c.0 + ox && key.1 == c.1 + oy && x == lx && y == ly);
        }
        if ox == 0 && oy == 0 {
            if ty * 16 + tx < (by * 16 + bx) as i32 {
                let updated: u8 = propagate(new_tile_bits, grid.read(lx, ly), direction);
                grid.write(lx, ly, updated);
                updates.push(TileUpdate { chunk, x: lx as u8, y: ly as u8, variant: updated });
                proof {
                    assert(speaks(c, bx as int, by as int, c, lx as int, ly as int, direction));
                    assert(updates@ =~= old(updates)@ + notice_of(
                        chunk,
                        bx as int,
                        by as int,
                        new_tile_bits,
                        *old(grid),
                        old(manager).grids(),
                        direction,
                    ));
                }
            } else {
                proof {
                    assert(updates@ =~= old(updates)@ + notice_of(
                        chunk,
                        bx as int,
                        by as int,
                        new_tile_bits,
                        *old(grid),
                        old(manager).grids(),
                        direction,
                    ));
                }
            }
        } else {
            match chunk.shifted(ox, oy) {
                Some(other) => {
                    match manager.grid(other) {
                        Some(stored) => {
                            let mut patched = stored;
                            let updated: u8 = propagate(
                                new_tile_bits,
                                patched.read(lx, ly),
                                direction,
                            );
                            patched.write(lx, ly, updated);
                            manager.patch(other, patched);
                            updates.push(
                                TileUpdate {
                                    chunk: other,
                                    x: lx as u8,
                                    y: ly as u8,
                                    variant: updated,
                                },
                            );
                            proof {
                                assert(speaks(
                                    c,
                                    bx as int,
                                    by as int,
                                    other.key(),
                                    lx as int,
                                    ly as int,
                                    direction,
                                ));
                                assert(updates@ =~= old(updates)@ + notice_of(
                                    chunk,
                                    bx as int,
                                    by as int,
                                    new_tile_bits,
                                    *old(grid),
                                    old(manager).grids(),
                                    direction,
                                ));
                            }
                        },
                        None => {
                            proof {
                                assert(updates@ =~= old(updates)@ + notice_of(
                                    chunk,
                                    bx as int,
                                    by as int,
                                    new_tile_bits,
                                    *old(grid),
                                    old(manager).grids(),
                                    direction,
                                ));
                            }
                        },
                    }
                },
                None => {
                    proof {
                        assert(!crate::coords::key_in_range((c.0 + ox, c.1 + oy)));
                        assert(updates@ =~= old(updates)@ + notice_of(
                            chunk,
                            bx as int,
                            by as int,
                            new_tile_bits,
                            *old(grid),
                            old(manager).grids(),
                            direction,
                        ));
                    }
                },
            }
        }
    }

    /// Lets the tile just placed at `(bx, by)` of `chunk`, with mask
    /// `new_tile_bits`, speak to its eight neighbours, edges first, then
    /// corners. A neighbour in this chunk is updated in `grid` if it was
    /// placed earlier in the scan; a neighbour in an adjacent chunk is
    /// updated in `manager` if that chunk is on record, and skipped if not.
    /// Every update is appended to `updates`.
    pub fn update_neighbour_tiles(
        bx: usize,
        by: usize,
        new_tile_bits: u8,
        grid: &mut TileBitGrid,
        manager: &mut ChunkManager,
        chunk: ChunkCoord,
        updates: &mut Vec<TileUpdate>,
    )
        requires
            bx < 16,
            by < 16,
            old(manager).wf(),
        ensures
            final(manager).wf(),
            final(manager).spawned() == old(manager).spawned(),
            final(manager).grids().dom() == old(manager).grids().dom(),
            old(manager).grids().dom().contains(chunk.key()) ==> final(manager).grids()[chunk.key()]
                == old(manager).grids()[chunk.key()],
            forall|x: int, y: int|
                0 <= x < 16 && 0 <= y < 16 ==> #[trigger] final(grid).at(x, y) == neighbour_update(
                    chunk.key(),
                    bx as int,
                    by as int,
                    new_tile_bits,
                    chunk.key(),
                    x,
                    y,
                    old(grid).at(x, y),
                ),
            forall|key: (int, int), x: int, y: int|
                old(manager).grids().dom().contains(key) && key != chunk.key() && 0 <= x < 16 && 0
                    <= y < 16 ==> #[trigger] final(manager).grids()[key].at(x, y)
                    == neighbour_update(
                    chunk.key(),
                    bx as int,
                    by as int,
                    new_tile_bits,
                    key,
                    x,
                    y,
                    old(manager).grids()[key].at(x, y),
                ),
            final(updates)@ == old(updates)@ + neighbour_notices(
                chunk,
                bx as int,
                by as int,
                new_tile_bits,
                *old(grid),
                old(manager).grids(),
                8,
            ),
    {
        let ghost grid0 = *grid;
        let ghost grids0 = manager.grids();
        let ghost updates0 = updates@;
        let ghost c = chunk.key();
        let mut rank: u8 = 0;
        proof {
            assert(updates@ =~= updates0 + neighbour_notices(
                chunk,
                bx as int,
                by as int,
                new_tile_bits,
                grid0,
                grids0,
                0,
            ));
        }
        while rank < 8
            invariant
                rank <= 8,
                bx < 16,
                by < 16,
                c == chunk.key(),
                manager.wf(),
                manager.spawned() == old(manager).spawned(),
                manager.grids().dom() == grids0.dom(),
                grids0.dom().contains(c) ==> manager.grids()[c] == grids0[c],
                forall|x: int, y: int|
                    0 <= x < 16 && 0 <= y < 16 ==> #[trigger] grid.at(x, y)
                        == neighbour_update_upto(
                        c,
                        bx as int,
                        by as int,
                        new_tile_bits,
                        c,
                        x,
                        y,
                        grid0.at(x, y),
                        rank as int,
                    ),
                forall|key: (int, int), x: int, y: int|
                    grids0.dom().contains(key) && key != c && 0 <= x < 16 && 0 <= y < 16
                        ==> #[trigger] manager.grids()[key].at(x, y) == neighbour_update_upto(
                        c,
                        bx as int,
                        by as int,
                        new_tile_bits,
                        key,
                        x,
                        y,
                        grids0[key].at(x, y),
                        rank as int,
                    ),
                updates@ == updates0 + neighbour_notices(
                    chunk,
                    bx as int,
                    by as int,
                    new_tile_bits,
                    grid0,
                    grids0,
                    rank as int,
                ),
            decreases 8 - rank,
        {
            let d = Direction::nth(rank);
            let ghost before_grid = *grid;
            let ghost before_grids = manager.grids();
            let ghost before_updates = updates@;
            Self::update_neighbour_tile(bx, by, new_tile_bits, d, grid, manager, chunk, updates);
            proof {
                let r = rank as int;
                assert(Direction::of_rank(r) == d);
                lemma_notice_reads_target(
                    chunk,
                    bx as int,
                    by as int,
                    new_tile_bits,
                    grid0,
                    grids0,
                    before_grid,
                    before_grids,
                    r,
                );
                assert(updates@ =~= updates0 + neighbour_notices(
                    chunk,
                    bx as int,
                    by as int,
                    new_tile_bits,
                    grid0,
                    grids0,
                    r + 1,
                ));
                assert forall|x: int, y: int| 0 <= x < 16 && 0 <= y < 16 implies #[trigger] grid.at(
                    x,
                    y,
                ) == neighbour_update_upto(
                    c,
                    bx as int,
                    by as int,
                    new_tile_bits,
                    c,
                    x,
                    y,
                    grid0.at(x, y),
                    r + 1,
                ) by {
                    assert(before_grid.at(x, y) == neighbour_update_upto(
                        c,
                        bx as int,
                        by as int,
                        new_tile_bits,
                        c,
                        x,
                        y,
                        grid0.at(x, y),
                        r,
                    ));
                }
                assert forall|key: (int, int), x: int, y: int|
                    grids0.dom().contains(key) && key != c && 0 <= x < 16 && 0 <= y
                        < 16 implies #[trigger] manager.grids()[key].at(x, y)
                    == neighbour_update_upto(
                    c,
                    bx as int,
                    by as int,
                    new_tile_bits,
                    key,
                    x,
                    y,
                    grids0[key].at(x, y),
                    r + 1,
                ) by {
                    assert(before_grids[key].at(x, y) == neighbour_update_upto(
                        c,
                        bx as int,
                        by as int,
                        new_tile_bits,
                        key,
                        x,
                        y,
                        grids0[key].at(x, y),
                        r,
                    ));
                }
            }
            rank = rank + 1;
        }
        proof {
            assert forall|x: int, y: int| 0 <= x < 16 && 0 <= y < 16 implies #[trigger] grid.at(
                x,
                y,
            ) == neighbour_update(
                c,
                bx as int,
                by as int,
                new_tile_bits,
                c,
                x,
                y,
                grid0.at(x, y),
            ) by {
                lemma_neighbour_update_unfolds(
                    c,
                    bx as int,
                    by as int,
                    new_tile_bits,
                    c,
                    x,
                    y,
                    grid0.at(x, y),
                );
            }
            assert forall|key: (int, int), x: int, y: int|
                grids0.dom().contains(key) && key != c && 0 <= x < 16 && 0 <= y
                    < 16 implies #[trigger] manager.grids()[key].at(x, y) == neighbour_update(
                c,
                bx as int,
                by as int,
                new_tile_bits,
                key,
                x,
                y,
                grids0[key].at(x, y),
            ) by {
                lemma_neighbour_update_unfolds(
                    c,
                    bx as int,
                    by as int,
                    new_tile_bits,
                    key,
                    x,
                    y,
                    grids0[key].at(x, y),
                );
            }
        }
    }
}

/// While a placed tile goes through its neighbours, the neighbour of rank
/// `rank` still holds what it held before the first was spoken to, so the
/// notice for it can be read off the state at either time.
proof fn lemma_notice_reads_target(
    chunk: ChunkCoord,
    bx: int,
    by: int,
    new_bits: u8,
    grid0: TileBitGrid,
    grids0: Map<(int, int), TileBitGrid>,
    grid: TileBitGrid,
    grids: Map<(int, int), TileBitGrid>,
    rank: int,
)
    requires
        0 <= bx < 16,
        0 <= by < 16,
        0 <= rank < 8,
        grids.dom() == grids0.dom(),
        forall|x: int, y: int|
            0 <= x < 16 && 0 <= y < 16 ==> #[trigger] grid.at(x, y) == neighbour_update_upto(
                chunk.key(),
                bx,
                by,
                new_bits,
                chunk.key(),
                x,
                y,
                grid0.at(x, y),
                rank,
            ),
        forall|key: (int, int), x: int, y: int|
            grids0.dom().contains(key) && key != chunk.key() && 0 <= x < 16 && 0 <= y < 16
                ==> #[trigger] grids[key].at(x, y) == neighbour_update_upto(
                chunk.key(),
                bx,
                by,
                new_bits,
                key,
                x,
                y,
                grids0[key].at(x, y),
                rank,
            ),
    ensures
        notice_of(chunk, bx, by, new_bits, grid, grids, Direction::of_rank(rank)) == notice_of(
            chunk,
            bx,
            by,
            new_bits,
            grid0,
            grids0,
            Direction::of_rank(rank),
        ),
{
    let d = Direction::of_rank(rank);
    let c = chunk.key();
    match neighbour_target(c, bx, by, d, grids0.dom()) {
        Some((key, x, y)) => {
            reveal_with_fuel(neighbour_update_upto, 9);
            if key == c {
                assert(grid.at(x, y) == neighbour_update_upto(
                    c,
                    bx,
                    by,
                    new_bits,
                    c,
                    x,
                    y,
                    grid0.at(x, y),
                    rank,
                ));
                assert(grid.at(x, y) == grid0.at(x, y));
            } else {
                assert(grids[key].at(x, y) == neighbour_update_upto(
                    c,
                    bx,
                    by,
                    new_bits,
                    key,
                    x,
                    y,
                    grids0[key].at(x, y),
                    rank,
                ));
                assert(grids[key].at(x, y) == grids0[key].at(x, y));
            }
        },
        None => {},
    }
}

/// Placing one more tile changes the grid in progress exactly as writing
/// that tile's marker and then its turn at its neighbours says.
proof fn lemma_in_progress_step(
    classes: ClassGrid,
    chunk: (int, int),
    x: int,
    y: int,
    bx: int,
    by: int,
)
    requires
        0 <= x < 16,
        0 <= y < 16,
        0 <= bx < 16,
        0 <= by < 16,
    ensures
        in_progress_mask(classes, chunk, x, y, scan_index(bx, by) + 1) == neighbour_update(
            chunk,
            bx,
            by,
            classes.marker_at(bx, by),
            chunk,
            x,
            y,
            if x == bx && y == by {
                classes.marker_at(bx, by)
            } else {
                in_progress_mask(classes, chunk, x, y, scan_index(bx, by))
            },
        ),
{
    lemma_mask_after_step(classes, chunk, chunk, x, y, classes.marker_at(x, y), bx, by);
}

/// The notices a tile's turn sends can be read off the masks that the
/// closed form gives for the moment the tile is placed.
proof fn lemma_notices_match(
    classes: ClassGrid,
    chunk: ChunkCoord,
    grids0: Map<(int, int), TileBitGrid>,
    grid: TileBitGrid,
    grids: Map<(int, int), TileBitGrid>,
    bx: int,
    by: int,
    ranks: int,
)
    requires
        0 <= bx < 16,
        0 <= by < 16,
        0 <= ranks <= 8,
        grids.dom() == grids0.dom(),
        forall|x: int, y: int|
            0 <= x < 16 && 0 <= y < 16 && !(x == bx && y == by) ==> #[trigger] grid.at(x, y)
                == in_progress_mask(classes, chunk.key(), x, y, scan_index(bx, by)),
        forall|key: (int, int), x: int, y: int|
            grids0.dom().contains(key) && 0 <= x < 16 && 0 <= y < 16
                ==> #[trigger] grids[key].at(x, y) == mask_after(
                classes,
                chunk.key(),
                key,
                x,
                y,
                grids0[key].at(x, y),
                scan_index(bx, by),
            ),
    ensures
        neighbour_notices(chunk, bx, by, classes.marker_at(bx, by), grid, grids, ranks)
            == tile_notices(classes, chunk, grids0, bx, by, ranks),
    decreases ranks,
{
    if ranks > 0 {
        lemma_notices_match(classes, chunk, grids0, grid, grids, bx, by, ranks - 1);
        let d = Direction::of_rank(ranks - 1);
        match neighbour_target(chunk.key(), bx, by, d, grids0.dom()) {
            Some((key, x, y)) => {
                if key == chunk.key() {
                    assert(grid.at(x, y) == in_progress_mask(
                        classes,
                        chunk.key(),
                        x,
                        y,
                        scan_index(bx, by),
                    ));
                } else {
                    assert(grids[key].at(x, y) == mask_after(
                        classes,
                        chunk.key(),
                        key,
                        x,
                        y,
                        grids0[key].at(x, y),
                        scan_index(bx, by),
                    ));
                }
            },
            None => {},
        }
    }
}

/// Every notice of a tile's turn names a tile of a chunk and a variant of
/// four bits.
proof fn lemma_tile_notices_are_in_range(
    classes: ClassGrid,
    chunk: ChunkCoord,
    grids: Map<(int, int), TileBitGrid>,
    bx: int,
    by: int,
    ranks: int,
)
    requires
        0 <= bx < 16,
        0 <= by < 16,
        0 <= ranks <= 8,
    ensures
        forall|i: int|
            0 <= i < tile_notices(classes, chunk, grids, bx, by, ranks).len() ==> (
            #[trigger] tile_notices(classes, chunk, grids, bx, by, ranks)[i]).in_range(),
    decreases ranks,
{
    if ranks > 0 {
        lemma_tile_notices_are_in_range(classes, chunk, grids, bx, by, ranks - 1);
        let d = Direction::of_rank(ranks - 1);
        let earlier = tile_notices(classes, chunk, grids, bx, by, ranks - 1);
        let last = generation_notice(classes, chunk, grids, bx, by, d);
        let all = tile_notices(classes, chunk, grids, bx, by, ranks);
        assert(all == earlier + last);
        match neighbour_target(chunk.key(), bx, by, d, grids.dom()) {
            Some((key, x, y)) => {
                crate::autotile::lemma_propagate_selects(
                    classes.marker_at(bx, by),
                    mask_at_time(classes, chunk.key(), grids, key, x, y, scan_index(bx, by)),
                    d,
                );
                assert(last.len() == 1 && last[0].in_range());
            },
            None => {},
        }
        assert forall|i: int| 0 <= i < all.len() implies (#[trigger] all[i]).in_range() by {
            if i < earlier.len() {
                assert(all[i] == earlier[i]);
            } else {
                assert(all[i] == last[i - earlier.len()]);
            }
        }
    }
}

/// Every notice of a generation names a tile of a chunk and a variant of
/// four bits.
pub proof fn lemma_notices_are_in_range(
    classes: ClassGrid,
    chunk: ChunkCoord,
    grids: Map<(int, int), TileBitGrid>,
    placed: int,
)
    requires
        0 <= placed <= 256,
    ensures
        forall|i: int|
            0 <= i < generation_notices(classes, chunk, grids, placed).len() ==> (
            #[trigger] generation_notices(classes, chunk, grids, placed)[i]).in_range(),
    decreases placed,
{
    if placed > 0 {
        let bx = (placed - 1) % 16;
        let by = (placed - 1) / 16;
        lemma_notices_are_in_range(classes, chunk, grids, placed - 1);
        lemma_tile_notices_are_in_range(classes, chunk, grids, bx, by, 8);
        let earlier = generation_notices(classes, chunk, grids, placed - 1);
        let own = TileUpdate {
            chunk,
            x: bx as u8,
            y: by as u8,
            variant: classes.marker_at(bx, by),
        };
        let turn = tile_notices(classes, chunk, grids, bx, by, 8);
        let all = generation_notices(classes, chunk, grids, placed);
        assert(all == earlier.push(own) + turn);
        assert(own.in_range());
        assert forall|i: int| 0 <= i < all.len() implies (#[trigger] all[i]).in_range() by {
            if i < earlier.len() {
                assert(all[i] == earlier[i]);
            } else if i == earlier.len() {
                assert(all[i] == own);
            } else {
                assert(all[i] == turn[i - earlier.len() - 1]);
            }
        }
    }
}

/// What one of two sequences holds, the two joined hold as well.
proof fn lemma_joined_holds(front: Seq<TileUpdate>, back: Seq<TileUpdate>, wanted: TileUpdate)
    requires
        front.contains(wanted) || back.contains(wanted),
    ensures
        (front + back).contains(wanted),
{
    if front.contains(wanted) {
        let i = choose|i: int| 0 <= i < front.len() && front[i] == wanted;
        assert((front + back)[i] == wanted);
    } else {
        let i = choose|i: int| 0 <= i < back.len() && back[i] == wanted;
        assert((front + back)[front.len() + i] == wanted);
    }
}

/// The notice for a direction is among the notices of the tile's turn once
/// the turn has passed that direction.
proof fn lemma_turn_holds_notice(
    classes: ClassGrid,
    chunk: ChunkCoord,
    grids: Map<(int, int), TileBitGrid>,
    bx: int,
    by: int,
    direction: Direction,
    ranks: int,
)
    requires
        direction.rank() < ranks <= 8,
        generation_notice(classes, chunk, grids, bx, by, direction).len() == 1,
    ensures
        tile_notices(classes, chunk, grids, bx, by, ranks).contains(
            generation_notice(classes, chunk, grids, bx, by, direction)[0],
        ),
    decreases ranks,
{
    let only = generation_notice(classes, chunk, grids, bx, by, direction);
    let wanted = only[0];
    let earlier = tile_notices(classes, chunk, grids, bx, by, ranks - 1);
    let last = generation_notice(classes, chunk, grids, bx, by, Direction::of_rank(ranks - 1));
    assert(tile_notices(classes, chunk, grids, bx, by, ranks) == earlier + last);
    if direction.rank() == ranks - 1 {
        assert(Direction::of_rank(ranks - 1) == direction);
        assert(last[0] == wanted);
    } else {
        lemma_turn_holds_notice(classes, chunk, grids, bx, by, direction, ranks - 1);
    }
    lemma_joined_holds(earlier, last, wanted);
}

/// Every tile that is spoken to is announced: when the `tile`-th tile of
/// the scan speaks to its neighbour in `direction`, the notices sent up to
/// any later moment hold one that names that neighbour with the mask it has
/// right after.
pub proof fn lemma_spoken_tile_is_announced(
    classes: ClassGrid,
    chunk: ChunkCoord,
    grids: Map<(int, int), TileBitGrid>,
    tile: int,
    direction: Direction,
    placed: int,
)
    requires
        0 <= tile < placed <= 256,
        generation_notice(classes, chunk, grids, tile % 16, tile / 16, direction).len() == 1,
    ensures
        generation_notices(classes, chunk, grids, placed).contains(
            generation_notice(classes, chunk, grids, tile % 16, tile / 16, direction)[0],
        ),
    decreases placed,
{
    let wanted = generation_notice(classes, chunk, grids, tile % 16, tile / 16, direction)[0];
    let px = (placed - 1) % 16;
    let py = (placed - 1) / 16;
    let earlier = generation_notices(classes, chunk, grids, placed - 1);
    let own = TileUpdate { chunk, x: px as u8, y: py as u8, variant: classes.marker_at(px, py) };
    let turn = tile_notices(classes, chunk, grids, px, py, 8);
    assert(generation_notices(classes, chunk, grids, placed) == earlier.push(own) + turn);
    if tile == placed - 1 {
        lemma_turn_holds_notice(classes, chunk, grids, px, py, direction, 8);
    } else {
        lemma_spoken_tile_is_announced(classes, chunk, grids, tile, direction, placed - 1);
        lemma_joined_holds(earlier, seq![own], wanted);
        assert(earlier + seq![own] == earlier.push(own));
    }
    lemma_joined_holds(earlier.push(own), turn, wanted);
}

} // verus!
