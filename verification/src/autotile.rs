//! The eight neighbour directions and the mask update a newly placed tile
//! applies to each neighbour.

use vstd::prelude::*;

verus! {

/// Where a neighbour lies, seen from the tile that was just placed.
/// `x` grows to the east, `y` to the north.
#[derive(Clone, Copy, Debug, PartialEq, Eq, Structural)]
pub enum Direction {
    North,
    East,
    South,
    West,
    NorthWest,
    NorthEast,
    SouthWest,
    SouthEast,
}

impl Direction {
    /// Step along `x` towards the neighbour.
    pub open spec fn dx(self) -> int {
        match self {
            Direction::North | Direction::South => 0,
            Direction::East | Direction::NorthEast | Direction::SouthEast => 1,
            Direction::West | Direction::NorthWest | Direction::SouthWest => -1,
        }
    }

    /// Step along `y` towards the neighbour.
    pub open spec fn dy(self) -> int {
        match self {
            Direction::East | Direction::West => 0,
            Direction::North | Direction::NorthEast | Direction::NorthWest => 1,
            Direction::South | Direction::SouthEast | Direction::SouthWest => -1,
        }
    }

    /// Position of this direction in the order in which a placed tile visits
    /// its neighbours: the four edges, then the four corners.
    pub open spec fn rank(self) -> int {
        match self {
            Direction::North => 0,
            Direction::East => 1,
            Direction::South => 2,
            Direction::West => 3,
            Direction::NorthWest => 4,
            Direction::NorthEast => 5,
            Direction::SouthWest => 6,
            Direction::SouthEast => 7,
        }
    }

    /// The direction visited at position `rank`.
    pub open spec fn of_rank(rank: int) -> Direction {
        if rank == 0 {
            Direction::North
        } else if rank == 1 {
            Direction::East
        } else if rank == 2 {
            Direction::South
        } else if rank == 3 {
            Direction::West
        } else if rank == 4 {
            Direction::NorthWest
        } else if rank == 5 {
            Direction::NorthEast
        } else if rank == 6 {
            Direction::SouthWest
        } else {
            Direction::SouthEast
        }
    }

    pub open spec fn is_edge_spec(self) -> bool {
        self.dx() == 0 || self.dy() == 0
    }

    /// The bits the neighbour takes over from the placed tile.
    pub open spec fn take_mask_spec(self) -> u8 {
        match self {
            Direction::North => 0b0110,
            Direction::East => 0b0101,
            Direction::South => 0b0011,
            Direction::West => 0b1010,
            Direction::NorthWest => 0b1000,
            Direction::NorthEast => 0b0100,
            Direction::SouthWest => 0b0010,
            Direction::SouthEast => 0b0001,
        }
    }

    /// The bits the neighbour keeps of its own mask.
    pub open spec fn keep_mask_spec(self) -> u8 {
        match self {
            Direction::North => 0b1001,
            Direction::East => 0b1010,
            Direction::South => 0b1100,
            Direction::West => 0b0101,
            Direction::NorthWest => 0b0111,
            Direction::NorthEast => 0b1011,
            Direction::SouthWest => 0b1101,
            Direction::SouthEast => 0b1110,
        }
    }

    /// The direction that leads back from the neighbour.
    pub open spec fn opposite_spec(self) -> Direction {
        match self {
            Direction::North => Direction::South,
            Direction::East => Direction::West,
            Direction::South => Direction::North,
            Direction::West => Direction::East,
            Direction::NorthWest => Direction::SouthEast,
            Direction::NorthEast => Direction::SouthWest,
            Direction::SouthWest => Direction::NorthEast,
            Direction::SouthEast => Direction::NorthWest,
        }
    }

    /// The direction whose step is `(dx, dy)`, if there is one.
    pub open spec fn from_offset_spec(dx: int, dy: int) -> Option<Direction> {
        if dx == 0 && dy == 1 {
            Some(Direction::North)
        } else if dx == 1 && dy == 0 {
            Some(Direction::East)
        } else if dx == 0 && dy == -1 {
            Some(Direction::South)
        } else if dx == -1 && dy == 0 {
            Some(Direction::West)
        } else if dx == -1 && dy == 1 {
            Some(Direction::NorthWest)
        } else if dx == 1 && dy == 1 {
            Some(Direction::NorthEast)
        } else if dx == -1 && dy == -1 {
            Some(Direction::SouthWest)
        } else if dx == 1 && dy == -1 {
            Some(Direction::SouthEast)
        } else {
            None
        }
    }

    /// The step `(dx, dy)` towards the neighbour.
    pub fn offset(self) -> (o: (i8, i8))
        ensures
            o.0 == self.dx(),
            o.1 == self.dy(),
    {
        match self {
            Direction::North => (0, 1),
            Direction::East => (1, 0),
            Direction::South => (0, -1),
            Direction::West => (-1, 0),
            Direction::NorthWest => (-1, 1),
            Direction::NorthEast => (1, 1),
            Direction::SouthWest => (-1, -1),
            Direction::SouthEast => (1, -1),
        }
    }

    pub fn from_offset(dx: i8, dy: i8) -> (d: Option<Direction>)
        ensures
            d == Direction::from_offset_spec(dx as int, dy as int),
            d matches Some(dir) ==> dir.dx() == dx && dir.dy() == dy,
            d is None <==> (dx == 0 && dy == 0) || dx < -1 || dx > 1 || dy < -1 || dy > 1,
    {
        if dx == 0 && dy == 1 {
            Some(Direction::North)
        } else if dx == 1 && dy == 0 {
            Some(Direction::East)
        } else if dx == 0 && dy == -1 {
            Some(Direction::South)
        } else if dx == -1 && dy == 0 {
            Some(Direction::West)
        } else if dx == -1 && dy == 1 {
            Some(Direction::NorthWest)
        } else if dx == 1 && dy == 1 {
            Some(Direction::NorthEast)
        } else if dx == -1 && dy == -1 {
            Some(Direction::SouthWest)
        } else if dx == 1 && dy == -1 {
            Some(Direction::SouthEast)
        } else {
            None
        }
    }

    /// The direction visited at position `rank` of the neighbour order.
    pub fn nth(rank: u8) -> (d: Direction)
        requires
            rank < 8,
        ensures
            d == Direction::of_rank(rank as int),
            d.rank() == rank,
    {
        if rank == 0 {
            Direction::North
        } else if rank == 1 {
            Direction::East
        } else if rank == 2 {
            Direction::South
        } else if rank == 3 {
            Direction::West
        } else if rank == 4 {
            Direction::NorthWest
        } else if rank == 5 {
            Direction::NorthEast
        } else if rank == 6 {
            Direction::SouthWest
        } else {
            Direction::SouthEast
        }
    }

    #[verifier::when_used_as_spec(is_edge_spec)]
    pub fn is_edge(self) -> (b: bool)
        ensures
            b == self.is_edge_spec(),
            b <==> self.rank() < 4,
    {
        match self {
            Direction::North | Direction::East | Direction::South | Direction::West => true,
            _ => false,
        }
    }

    #[verifier::when_used_as_spec(opposite_spec)]
    pub fn opposite(self) -> (d: Direction)
        ensures
            d == self.opposite_spec(),
            d.dx() == -self.dx(),
            d.dy() == -self.dy(),
    {
        match self {
            Direction::North => Direction::South,
            Direction::East => Direction::West,
            Direction::South => Direction::North,
            Direction::West => Direction::East,
            Direction::NorthWest => Direction::SouthEast,
            Direction::NorthEast => Direction::SouthWest,
            Direction::SouthWest => Direction::NorthEast,
            Direction::SouthEast => Direction::NorthWest,
        }
    }

    #[verifier::when_used_as_spec(take_mask_spec)]
    pub fn take_mask(self) -> (m: u8)
        ensures
            m == self.take_mask_spec(),
    {
        match self {
            Direction::North => 0b0110,
            Direction::East => 0b0101,
            Direction::South => 0b0011,
            Direction::West => 0b1010,
            Direction::NorthWest => 0b1000,
            Direction::NorthEast => 0b0100,
            Direction::SouthWest => 0b0010,
            Direction::SouthEast => 0b0001,
        }
    }

    #[verifier::when_used_as_spec(keep_mask_spec)]
    pub fn keep_mask(self) -> (m: u8)
        ensures
            m == self.keep_mask_spec(),
    {
        match self {
            Direction::North => 0b1001,
            Direction::East => 0b1010,
            Direction::South => 0b1100,
            Direction::West => 0b0101,
            Direction::NorthWest => 0b0111,
            Direction::NorthEast => 0b1011,
            Direction::SouthWest => 0b1101,
            Direction::SouthEast => 0b1110,
        }
    }
}

/// The neighbour's mask after the placed tile has spoken: the placed tile's
/// bits where the direction takes them, the neighbour's old bits elsewhere.
pub open spec fn propagate_spec(new_bits: u8, neighbour_bits: u8, direction: Direction) -> u8 {
    (new_bits & direction.take_mask_spec()) | (neighbour_bits & direction.keep_mask_spec())
}

/// What `compute_tile_index` gives for a step `(dx, dy)`: the update of the
/// edge direction with that step, and `0` for every other step.
pub open spec fn tile_index_spec(new_tile_bits: u8, neighbour_bits: u8, dx: int, dy: int) -> u8 {
    match Direction::from_offset_spec(dx, dy) {
        Some(d) => if d.is_edge_spec() {
            propagate_spec(new_tile_bits, neighbour_bits, d)
        } else {
            0
        },
        None => 0,
    }
}

/// What `compute_corner_index` gives for a step `(dx, dy)`: the update of the
/// corner direction with that step, and `0` for every other step.
pub open spec fn corner_index_spec(new_tile_bits: u8, neighbour_bits: u8, dx: int, dy: int) -> u8 {
    match Direction::from_offset_spec(dx, dy) {
        Some(d) => if !d.is_edge_spec() {
            propagate_spec(new_tile_bits, neighbour_bits, d)
        } else {
            0
        },
        None => 0,
    }
}

/// Whether bit `bit` of `mask` is set.
pub open spec fn bit_of(mask: u8, bit: u8) -> bool {
    (mask >> bit) & 1 == 1
}

/// Updates the mask of the neighbour that lies in `direction` of a newly
/// placed tile whose mask is `new_bits`.
pub fn propagate(new_bits: u8, neighbour_bits: u8, direction: Direction) -> (updated: u8)
    ensures
        updated == propagate_spec(new_bits, neighbour_bits, direction),
        updated <= 0b1111,
{
    let take: u8 = direction.take_mask();
    let keep: u8 = direction.keep_mask();
    let updated: u8 = (new_bits & take) | (neighbour_bits & keep);
    proof {
        lemma_masked_union_is_four_bit(new_bits, neighbour_bits, take, keep);
    }
    updated
}

/// Mask update for a neighbour across an edge; `edge` is the step `(dx, dy)`
/// from the placed tile to the neighbour.
pub fn compute_tile_index(new_tile_bits: u8, neighbour_bits: u8, edge: (i8, i8)) -> (index: u8)
    ensures
        index == tile_index_spec(new_tile_bits, neighbour_bits, edge.0 as int, edge.1 as int),
        index <= 0b1111,
{
    match Direction::from_offset(edge.0, edge.1) {
        Some(d) => {
            if d.is_edge() {
                propagate(new_tile_bits, neighbour_bits, d)
            } else {
                0
            }
        },
        None => 0,
    }
}

/// Mask update for a neighbour across a corner; `corner` is the step
/// `(dx, dy)` from the placed tile to the neighbour.
pub fn compute_corner_index(new_tile_bits: u8, neighbour_bits: u8, corner: (i8, i8)) -> (index: u8)
    ensures
        index == corner_index_spec(new_tile_bits, neighbour_bits, corner.0 as int, corner.1 as int),
        index <= 0b1111,
{
    match Direction::from_offset(corner.0, corner.1) {
        Some(d) => {
            if !d.is_edge() {
                propagate(new_tile_bits, neighbour_bits, d)
            } else {
                0
            }
        },
        None => 0,
    }
}

/// Whether `direction` hands bit `bit` of the placed tile to the neighbour.
pub open spec fn takes_bit(direction: Direction, bit: u8) -> bool {
    match direction {
        Direction::North => bit == 1 || bit == 2,
        Direction::East => bit == 0 || bit == 2,
        Direction::South => bit == 0 || bit == 1,
        Direction::West => bit == 1 || bit == 3,
        Direction::NorthWest => bit == 3,
        Direction::NorthEast => bit == 2,
        Direction::SouthWest => bit == 1,
        Direction::SouthEast => bit == 0,
    }
}

proof fn lemma_mask_pairs(take: u8, keep: u8)
    by (bit_vector)
    requires
        (take == 0b0110 && keep == 0b1001) || (take == 0b0101 && keep == 0b1010) || (take == 0b0011
            && keep == 0b1100) || (take == 0b1010 && keep == 0b0101) || (take == 0b1000 && keep
            == 0b0111) || (take == 0b0100 && keep == 0b1011) || (take == 0b0010 && keep == 0b1101)
            || (take == 0b0001 && keep == 0b1110),
    ensures
        take & keep == 0,
        take | keep == 0b1111,
{
}

proof fn lemma_mask_bits(mask: u8, bit: u8)
    by (bit_vector)
    requires
        bit < 4,
    ensures
        mask == 0b0110 ==> (((mask >> bit) & 1 == 1) <==> (bit == 1 || bit == 2)),
        mask == 0b0101 ==> (((mask >> bit) & 1 == 1) <==> (bit == 0 || bit == 2)),
        mask == 0b0011 ==> (((mask >> bit) & 1 == 1) <==> (bit == 0 || bit == 1)),
        mask == 0b1010 ==> (((mask >> bit) & 1 == 1) <==> (bit == 1 || bit == 3)),
        mask == 0b1000 ==> (((mask >> bit) & 1 == 1) <==> bit == 3),
        mask == 0b0100 ==> (((mask >> bit) & 1 == 1) <==> bit == 2),
        mask == 0b0010 ==> (((mask >> bit) & 1 == 1) <==> bit == 1),
        mask == 0b0001 ==> (((mask >> bit) & 1 == 1) <==> bit == 0),
        mask == 0b1111 ==> (mask >> bit) & 1 == 1,
        mask == 0b0000 ==> (mask >> bit) & 1 == 0,
{
}

/// The two masks of a direction split the four bits between them: no bit is
/// in both, every bit is in one.
pub proof fn lemma_take_keep_partition(direction: Direction)
    ensures
        direction.take_mask_spec() & direction.keep_mask_spec() == 0,
        direction.take_mask_spec() | direction.keep_mask_spec() == 0b1111,
        direction.take_mask_spec() <= 0b1111,
        direction.keep_mask_spec() <= 0b1111,
{
    lemma_mask_pairs(direction.take_mask_spec(), direction.keep_mask_spec());
}

/// The table of `takes_bit` reads the take masks bit by bit; the all-ones and
/// all-zeros masks have every bit set and clear.
pub proof fn lemma_takes_bit_reads_take_mask(direction: Direction, bit: u8)
    requires
        bit < 4,
    ensures
        bit_of(direction.take_mask_spec(), bit) == takes_bit(direction, bit),
        bit_of(0b1111, bit),
        !bit_of(0b0000, bit),
{
    lemma_mask_bits(direction.take_mask_spec(), bit);
    lemma_mask_bits(0b1111, bit);
    lemma_mask_bits(0b0000, bit);
}

/// An update changes exactly the bits its direction takes: those come from
/// the placed tile, all others stay as the neighbour had them.
pub proof fn lemma_propagate_selects(new_bits: u8, neighbour_bits: u8, direction: Direction)
    ensures
        propagate_spec(new_bits, neighbour_bits, direction) & direction.take_mask_spec()
            == new_bits & direction.take_mask_spec(),
        propagate_spec(new_bits, neighbour_bits, direction) & direction.keep_mask_spec()
            == neighbour_bits & direction.keep_mask_spec(),
        propagate_spec(new_bits, neighbour_bits, direction) <= 0b1111,
{
    lemma_take_keep_partition(direction);
    let take = direction.take_mask_spec();
    let keep = direction.keep_mask_spec();
    assert(((new_bits & take) | (neighbour_bits & keep)) & take == new_bits & take
        && ((new_bits & take) | (neighbour_bits & keep)) & keep == neighbour_bits & keep
        && ((new_bits & take) | (neighbour_bits & keep)) <= 0b1111) by (bit_vector)
        requires
            take & keep == 0,
            take | keep == 0b1111,
    ;
}

/// Bit by bit: a bit the direction takes equals the placed tile's bit, any
/// other of the four bits equals the neighbour's old bit.
pub proof fn lemma_propagate_bit(new_bits: u8, neighbour_bits: u8, direction: Direction, bit: u8)
    requires
        bit < 4,
    ensures
        bit_of(propagate_spec(new_bits, neighbour_bits, direction), bit) == (if takes_bit(
            direction,
            bit,
        ) {
            bit_of(new_bits, bit)
        } else {
            bit_of(neighbour_bits, bit)
        }),
{
    lemma_take_keep_partition(direction);
    lemma_takes_bit_reads_take_mask(direction, bit);
    let take = direction.take_mask_spec();
    let keep = direction.keep_mask_spec();
    assert((((new_bits & take) | (neighbour_bits & keep)) >> bit) & 1 == (if (take >> bit) & 1
        == 1 {
        (new_bits >> bit) & 1
    } else {
        (neighbour_bits >> bit) & 1
    })) by (bit_vector)
        requires
            take & keep == 0,
            take | keep == 0b1111,
            bit < 4,
    ;
}

/// Applying an update a second time with the same placed tile and direction
/// changes nothing.
pub proof fn lemma_propagate_idempotent(new_bits: u8, neighbour_bits: u8, direction: Direction)
    ensures
        propagate_spec(new_bits, propagate_spec(new_bits, neighbour_bits, direction), direction)
            == propagate_spec(new_bits, neighbour_bits, direction),
{
    lemma_take_keep_partition(direction);
    let take = direction.take_mask_spec();
    let keep = direction.keep_mask_spec();
    assert((new_bits & take) | (((new_bits & take) | (neighbour_bits & keep)) & keep) == (new_bits
        & take) | (neighbour_bits & keep)) by (bit_vector)
        requires
            take & keep == 0,
    ;
}

proof fn lemma_masked_union_is_four_bit(a: u8, b: u8, take: u8, keep: u8)
    requires
        take <= 0b1111,
        keep <= 0b1111,
    ensures
        (a & take) | (b & keep) <= 0b1111,
{
    assert((a & take) | (b & keep) <= 0b1111) by (bit_vector)
        requires
            take <= 0b1111,
            keep <= 0b1111,
    ;
}

} // verus!
