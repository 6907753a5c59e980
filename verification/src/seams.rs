//! What the masks say once a chunk has been generated: which neighbour each
//! bit of a tile reports on, and what stays untouched.

use vstd::prelude::*;
use crate::autotile::{
    bit_of, lemma_propagate_bit, lemma_propagate_selects, lemma_takes_bit_reads_take_mask,
    takes_bit, Direction,
};
use crate::generator::{
    apply_writer, fresh_mask, generation_outcome, mask_after, patched_mask, rel, speaks,
    writer_direction, ClassGrid,
};
use crate::terrain::TerrainClass;
use crate::tile_grid::TileBitGrid;

verus! {

/// Whether, during the generation of `chunk`, the `rank`-th of the tiles
/// around the tile at `(x, y)` of chunk `key` belongs to `chunk`, speaks to
/// that tile and hands it bit `bit`.
pub open spec fn writes_bit(
    chunk: (int, int),
    key: (int, int),
    x: int,
    y: int,
    rank: int,
    bit: u8,
) -> bool {
    let d = writer_direction(rank);
    let bx = rel(chunk.0, key.0, x) - d.dx();
    let by = rel(chunk.1, key.1, y) - d.dy();
    0 <= bx < 16 && 0 <= by < 16 && speaks(chunk, bx, by, key, x, y, d) && takes_bit(d, bit)
}

/// The rank of the last tile placed that hands bit `bit` to the tile at
/// `(x, y)` of chunk `key` during the generation of `chunk`; `-1` when no
/// tile does.
pub open spec fn last_writer_rank(chunk: (int, int), key: (int, int), x: int, y: int, bit: u8)
    -> int {
    if writes_bit(chunk, key, x, y, 7, bit) {
        7
    } else if writes_bit(chunk, key, x, y, 6, bit) {
        6
    } else if writes_bit(chunk, key, x, y, 5, bit) {
        5
    } else if writes_bit(chunk, key, x, y, 4, bit) {
        4
    } else if writes_bit(chunk, key, x, y, 3, bit) {
        3
    } else if writes_bit(chunk, key, x, y, 2, bit) {
        2
    } else if writes_bit(chunk, key, x, y, 1, bit) {
        1
    } else if writes_bit(chunk, key, x, y, 0, bit) {
        0
    } else {
        -1
    }
}

/// The class of the tile of the generated chunk that the tile at `(x, y)` of
/// chunk `key` has as its `rank`-th surrounding tile.
pub open spec fn writer_class(
    classes: ClassGrid,
    chunk: (int, int),
    key: (int, int),
    x: int,
    y: int,
    rank: int,
) -> TerrainClass {
    let d = writer_direction(rank);
    classes.class_at(rel(chunk.0, key.0, x) - d.dx(), rel(chunk.1, key.1, y) - d.dy())
}

proof fn lemma_apply_writer_bit(
    classes: ClassGrid,
    chunk: (int, int),
    key: (int, int),
    x: int,
    y: int,
    rank: int,
    before: u8,
    bit: u8,
)
    requires
        0 <= rank < 8,
        bit < 4,
    ensures
        bit_of(
            apply_writer(classes, chunk, key, x, y, writer_direction(rank), 256, before),
            bit,
        ) == (if writes_bit(chunk, key, x, y, rank, bit) {
            writer_class(classes, chunk, key, x, y, rank) == TerrainClass::Land
        } else {
            bit_of(before, bit)
        }),
        before <= 0b1111 ==> apply_writer(
            classes,
            chunk,
            key,
            x,
            y,
            writer_direction(rank),
            256,
            before,
        ) <= 0b1111,
{
    let d = writer_direction(rank);
    let bx = rel(chunk.0, key.0, x) - d.dx();
    let by = rel(chunk.1, key.1, y) - d.dy();
    let marker = classes.marker_at(bx, by);
    lemma_propagate_bit(marker, before, d, bit);
    lemma_propagate_selects(marker, before, d);
    lemma_takes_bit_reads_take_mask(d, bit);
}

/// After a chunk has been generated, each of the four bits of a tile tells
/// whether the last tile that handed it that bit is land; a bit that no tile
/// handed over is as it was at the start.
pub proof fn lemma_last_writer_decides(
    classes: ClassGrid,
    chunk: (int, int),
    key: (int, int),
    x: int,
    y: int,
    initial: u8,
    bit: u8,
)
    requires
        bit < 4,
    ensures
        ({
            let rank = last_writer_rank(chunk, key, x, y, bit);
            let mask = mask_after(classes, chunk, key, x, y, initial, 256);
            if rank < 0 {
                bit_of(mask, bit) == bit_of(initial, bit)
            } else {
                bit_of(mask, bit) == (writer_class(classes, chunk, key, x, y, rank)
                    == TerrainClass::Land)
            }
        }),
{
    let m0 = apply_writer(classes, chunk, key, x, y, writer_direction(0), 256, initial);
    let m1 = apply_writer(classes, chunk, key, x, y, writer_direction(1), 256, m0);
    let m2 = apply_writer(classes, chunk, key, x, y, writer_direction(2), 256, m1);
    let m3 = apply_writer(classes, chunk, key, x, y, writer_direction(3), 256, m2);
    let m4 = apply_writer(classes, chunk, key, x, y, writer_direction(4), 256, m3);
    let m5 = apply_writer(classes, chunk, key, x, y, writer_direction(5), 256, m4);
    let m6 = apply_writer(classes, chunk, key, x, y, writer_direction(6), 256, m5);
    lemma_apply_writer_bit(classes, chunk, key, x, y, 0, initial, bit);
    lemma_apply_writer_bit(classes, chunk, key, x, y, 1, m0, bit);
    lemma_apply_writer_bit(classes, chunk, key, x, y, 2, m1, bit);
    lemma_apply_writer_bit(classes, chunk, key, x, y, 3, m2, bit);
    lemma_apply_writer_bit(classes, chunk, key, x, y, 4, m3, bit);
    lemma_apply_writer_bit(classes, chunk, key, x, y, 5, m4, bit);
    lemma_apply_writer_bit(classes, chunk, key, x, y, 6, m5, bit);
    lemma_apply_writer_bit(classes, chunk, key, x, y, 7, m6, bit);
}

/// No seam on land: after a chunk has been generated, a bit of a land tile
/// of that chunk is set exactly when the last tile that handed it that bit
/// has the same class; a bit that no tile handed over is set.
pub proof fn lemma_land_tile_bits_tell_equality(
    classes: ClassGrid,
    chunk: (int, int),
    x: int,
    y: int,
    bit: u8,
)
    requires
        0 <= x < 16,
        0 <= y < 16,
        bit < 4,
        classes.class_at(x, y) == TerrainClass::Land,
    ensures
        ({
            let rank = last_writer_rank(chunk, chunk, x, y, bit);
            let mask = fresh_mask(classes, chunk, x, y);
            if rank < 0 {
                bit_of(mask, bit)
            } else {
                bit_of(mask, bit) == (classes.class_at(x, y) == writer_class(
                    classes,
                    chunk,
                    chunk,
                    x,
                    y,
                    rank,
                ))
            }
        }),
{
    lemma_last_writer_decides(classes, chunk, chunk, x, y, classes.marker_at(x, y), bit);
    lemma_takes_bit_reads_take_mask(Direction::North, bit);
}

/// The masks of a freshly generated chunk, bit by bit, with `land(x, y)` for
/// "the tile at `(x, y)` is land". Bit 2 tells of the tile itself; bit 3 of
/// its eastern neighbour; bit 0 of its northern neighbour; bit 1 of its
/// north-eastern neighbour, or, on the eastern border, of the northern one,
/// or, on the northern border, of the eastern one. Where the chunk ends the
/// bit tells of the tile itself.
pub proof fn lemma_fresh_mask_bits(classes: ClassGrid, chunk: (int, int), x: int, y: int)
    requires
        0 <= x < 16,
        0 <= y < 16,
    ensures
        ({
            let mask = fresh_mask(classes, chunk, x, y);
            let own = classes.class_at(x, y) == TerrainClass::Land;
            let east = classes.class_at(x + 1, y) == TerrainClass::Land;
            let north = classes.class_at(x, y + 1) == TerrainClass::Land;
            let north_east = classes.class_at(x + 1, y + 1) == TerrainClass::Land;
            &&& bit_of(mask, 2) == own
            &&& bit_of(mask, 3) == (if x < 15 {
                east
            } else {
                own
            })
            &&& bit_of(mask, 0) == (if y < 15 {
                north
            } else {
                own
            })
            &&& bit_of(mask, 1) == (if x < 15 && y < 15 {
                north_east
            } else if y < 15 {
                north
            } else if x < 15 {
                east
            } else {
                own
            })
            &&& mask <= 0b1111
        }),
{
    let initial = classes.marker_at(x, y);
    lemma_last_writer_decides(classes, chunk, chunk, x, y, initial, 0);
    lemma_last_writer_decides(classes, chunk, chunk, x, y, initial, 1);
    lemma_last_writer_decides(classes, chunk, chunk, x, y, initial, 2);
    lemma_last_writer_decides(classes, chunk, chunk, x, y, initial, 3);
    lemma_takes_bit_reads_take_mask(Direction::North, 0);
    lemma_takes_bit_reads_take_mask(Direction::North, 1);
    lemma_takes_bit_reads_take_mask(Direction::North, 2);
    lemma_takes_bit_reads_take_mask(Direction::North, 3);
    lemma_masks_stay_four_bit(classes, chunk, chunk, x, y, initial);
}

/// When a chunk is generated east of one that is on record, the tiles on
/// the eastern border of the older chunk learn of their new neighbours: bit
/// 3 tells whether the tile across the border is land, bit 1 whether the
/// tile across the border one row up is (on the top row: the tile straight
/// across); bits 0 and 2 stay as they were.
pub proof fn lemma_east_border_is_patched(
    classes: ClassGrid,
    chunk: (int, int),
    y: int,
    before: u8,
)
    requires
        0 <= y < 16,
    ensures
        ({
            let mask = patched_mask(classes, chunk, (chunk.0 - 1, chunk.1), 15, y, before);
            let across = classes.class_at(0, y) == TerrainClass::Land;
            let across_up = classes.class_at(0, y + 1) == TerrainClass::Land;
            &&& bit_of(mask, 3) == across
            &&& bit_of(mask, 1) == (if y < 15 {
                across_up
            } else {
                across
            })
            &&& bit_of(mask, 0) == bit_of(before, 0)
            &&& bit_of(mask, 2) == bit_of(before, 2)
        }),
{
    let key = (chunk.0 - 1, chunk.1);
    lemma_last_writer_decides(classes, chunk, key, 15, y, before, 0);
    lemma_last_writer_decides(classes, chunk, key, 15, y, before, 1);
    lemma_last_writer_decides(classes, chunk, key, 15, y, before, 2);
    lemma_last_writer_decides(classes, chunk, key, 15, y, before, 3);
}

/// When a chunk is generated west of one that is on record, the tiles on
/// the western border of the older chunk learn of their new neighbours: bit
/// 2 tells whether the tile across the border is land, bit 0 whether the
/// tile across the border one row up is (on the top row: the tile straight
/// across); bits 1 and 3 stay as they were.
pub proof fn lemma_west_border_is_patched(
    classes: ClassGrid,
    chunk: (int, int),
    y: int,
    before: u8,
)
    requires
        0 <= y < 16,
    ensures
        ({
            let mask = patched_mask(classes, chunk, (chunk.0 + 1, chunk.1), 0, y, before);
            let across = classes.class_at(15, y) == TerrainClass::Land;
            let across_up = classes.class_at(15, y + 1) == TerrainClass::Land;
            &&& bit_of(mask, 2) == across
            &&& bit_of(mask, 0) == (if y < 15 {
                across_up
            } else {
                across
            })
            &&& bit_of(mask, 1) == bit_of(before, 1)
            &&& bit_of(mask, 3) == bit_of(before, 3)
        }),
{
    let key = (chunk.0 + 1, chunk.1);
    lemma_last_writer_decides(classes, chunk, key, 0, y, before, 0);
    lemma_last_writer_decides(classes, chunk, key, 0, y, before, 1);
    lemma_last_writer_decides(classes, chunk, key, 0, y, before, 2);
    lemma_last_writer_decides(classes, chunk, key, 0, y, before, 3);
}

/// When a chunk is generated north of one that is on record, the tiles on
/// the northern border of the older chunk learn of their new neighbours: bit
/// 0 tells whether the tile across the border is land, bit 1 whether the
/// tile across the border one column east is (in the last column: the tile
/// straight across); bits 2 and 3 stay as they were.
pub proof fn lemma_north_border_is_patched(
    classes: ClassGrid,
    chunk: (int, int),
    x: int,
    before: u8,
)
    requires
        0 <= x < 16,
    ensures
        ({
            let mask = patched_mask(classes, chunk, (chunk.0, chunk.1 - 1), x, 15, before);
            let across = classes.class_at(x, 0) == TerrainClass::Land;
            let across_east = classes.class_at(x + 1, 0) == TerrainClass::Land;
            &&& bit_of(mask, 0) == across
            &&& bit_of(mask, 1) == (if x < 15 {
                across_east
            } else {
                across
            })
            &&& bit_of(mask, 2) == bit_of(before, 2)
            &&& bit_of(mask, 3) == bit_of(before, 3)
        }),
{
    let key = (chunk.0, chunk.1 - 1);
    lemma_last_writer_decides(classes, chunk, key, x, 15, before, 0);
    lemma_last_writer_decides(classes, chunk, key, x, 15, before, 1);
    lemma_last_writer_decides(classes, chunk, key, x, 15, before, 2);
    lemma_last_writer_decides(classes, chunk, key, x, 15, before, 3);
}

/// When a chunk is generated south of one that is on record, the tiles on
/// the southern border of the older chunk learn of their new neighbours:
/// bits 1 and 2 tell whether the tile across the border is land, bit 3
/// whether the tile across the border one column east is (in the last
/// column it stays as it was); bit 0 stays as it was.
pub proof fn lemma_south_border_is_patched(
    classes: ClassGrid,
    chunk: (int, int),
    x: int,
    before: u8,
)
    requires
        0 <= x < 16,
    ensures
        ({
            let mask = patched_mask(classes, chunk, (chunk.0, chunk.1 + 1), x, 0, before);
            let across = classes.class_at(x, 15) == TerrainClass::Land;
            let across_east = classes.class_at(x + 1, 15) == TerrainClass::Land;
            &&& bit_of(mask, 1) == across
            &&& bit_of(mask, 2) == across
            &&& bit_of(mask, 3) == (if x < 15 {
                across_east
            } else {
                bit_of(before, 3)
            })
            &&& bit_of(mask, 0) == bit_of(before, 0)
        }),
{
    let key = (chunk.0, chunk.1 + 1);
    lemma_last_writer_decides(classes, chunk, key, x, 0, before, 0);
    lemma_last_writer_decides(classes, chunk, key, x, 0, before, 1);
    lemma_last_writer_decides(classes, chunk, key, x, 0, before, 2);
    lemma_last_writer_decides(classes, chunk, key, x, 0, before, 3);
}

/// The masks of a freshly generated chunk depend on the classes of its own
/// tiles alone: neither where the chunk lies nor what is on record changes
/// them.
pub proof fn lemma_fresh_mask_ignores_position(
    classes: ClassGrid,
    chunk: (int, int),
    elsewhere: (int, int),
    x: int,
    y: int,
)
    ensures
        fresh_mask(classes, chunk, x, y) == fresh_mask(classes, elsewhere, x, y),
{
}

/// Generation never sets a bit above the fourth.
pub proof fn lemma_masks_stay_four_bit(
    classes: ClassGrid,
    chunk: (int, int),
    key: (int, int),
    x: int,
    y: int,
    initial: u8,
)
    requires
        initial <= 0b1111,
    ensures
        mask_after(classes, chunk, key, x, y, initial, 256) <= 0b1111,
{
    let m0 = apply_writer(classes, chunk, key, x, y, writer_direction(0), 256, initial);
    let m1 = apply_writer(classes, chunk, key, x, y, writer_direction(1), 256, m0);
    let m2 = apply_writer(classes, chunk, key, x, y, writer_direction(2), 256, m1);
    let m3 = apply_writer(classes, chunk, key, x, y, writer_direction(3), 256, m2);
    let m4 = apply_writer(classes, chunk, key, x, y, writer_direction(4), 256, m3);
    let m5 = apply_writer(classes, chunk, key, x, y, writer_direction(5), 256, m4);
    let m6 = apply_writer(classes, chunk, key, x, y, writer_direction(6), 256, m5);
    lemma_apply_writer_bit(classes, chunk, key, x, y, 0, initial, 0);
    lemma_apply_writer_bit(classes, chunk, key, x, y, 1, m0, 0);
    lemma_apply_writer_bit(classes, chunk, key, x, y, 2, m1, 0);
    lemma_apply_writer_bit(classes, chunk, key, x, y, 3, m2, 0);
    lemma_apply_writer_bit(classes, chunk, key, x, y, 4, m3, 0);
    lemma_apply_writer_bit(classes, chunk, key, x, y, 5, m4, 0);
    lemma_apply_writer_bit(classes, chunk, key, x, y, 6, m5, 0);
    lemma_apply_writer_bit(classes, chunk, key, x, y, 7, m6, 0);
}

/// Generation reaches only the tiles that touch the new chunk: a tile of
/// another chunk that is not one step away from a tile of the generated
/// chunk keeps its mask.
pub proof fn lemma_out_of_reach_is_untouched(
    classes: ClassGrid,
    chunk: (int, int),
    key: (int, int),
    x: int,
    y: int,
    before: u8,
)
    requires
        0 <= x < 16,
        0 <= y < 16,
        key != chunk,
        ({
            let rx = rel(chunk.0, key.0, x);
            let ry = rel(chunk.1, key.1, y);
            rx < -1 || rx > 16 || ry < -1 || ry > 16
        }),
    ensures
        patched_mask(classes, chunk, key, x, y, before) == before,
{
}

/// No seam towards a chunk that arrives later: when a chunk has been
/// generated and then its eastern neighbour, bit 3 of every tile on the
/// eastern border of the first tells whether the tile across the border is
/// land; for a land tile this is to say whether the two have the same class.
pub proof fn lemma_border_sees_later_neighbour(
    start: Map<(int, int), TileBitGrid>,
    west: (int, int),
    west_classes: ClassGrid,
    between: Map<(int, int), TileBitGrid>,
    east_classes: ClassGrid,
    end: Map<(int, int), TileBitGrid>,
    y: int,
)
    requires
        0 <= y < 16,
        generation_outcome(start, west, west_classes, between),
        generation_outcome(between, (west.0 + 1, west.1), east_classes, end),
    ensures
        bit_of(end[west].at(15, y), 3) == (east_classes.class_at(0, y) == TerrainClass::Land),
        west_classes.class_at(15, y) == TerrainClass::Land ==> bit_of(end[west].at(15, y), 3) == (
        west_classes.class_at(15, y) == east_classes.class_at(0, y)),
{
    let east = (west.0 + 1, west.1);
    assert(between.dom().contains(west));
    assert(end[west].at(15, y) == patched_mask(
        east_classes,
        east,
        west,
        15,
        y,
        between[west].at(15, y),
    ));
    lemma_east_border_is_patched(east_classes, east, y, between[west].at(15, y));
}

/// A coordinate generates at most once: after a generation the chunk is on
/// record, which is the condition on which a further generation of it is
/// refused.
pub proof fn lemma_generated_chunk_is_on_record(
    before: Map<(int, int), TileBitGrid>,
    chunk: (int, int),
    classes: ClassGrid,
    after: Map<(int, int), TileBitGrid>,
)
    requires
        generation_outcome(before, chunk, classes, after),
    ensures
        after.dom().contains(chunk),
        forall|key: (int, int)| before.dom().contains(key) ==> after.dom().contains(key),
        forall|key: (int, int)| after.dom().contains(key) ==> key == chunk || before.dom().contains(key),
{
}

/// Two generations at distinct coordinates do not stand in each other's
/// way: the first leaves the second coordinate off the record, so the second
/// is accepted, and afterwards both chunks are on record.
pub proof fn lemma_distinct_chunks_both_generate(
    start: Map<(int, int), TileBitGrid>,
    first: (int, int),
    first_classes: ClassGrid,
    between: Map<(int, int), TileBitGrid>,
    second: (int, int),
    second_classes: ClassGrid,
    end: Map<(int, int), TileBitGrid>,
)
    requires
        first != second,
        !start.dom().contains(first),
        !start.dom().contains(second),
        generation_outcome(start, first, first_classes, between),
        generation_outcome(between, second, second_classes, end),
    ensures
        !between.dom().contains(second),
        end.dom().contains(first),
        end.dom().contains(second),
        end.dom() == start.dom().insert(first).insert(second),
{
}

} // verus!
