//! The eight compass directions of the tile grid and the bitmasks that
//! describe which of them a wall blocks.
//!
//! A wall mask is one byte. Its low nibble holds one bit for each orthogonal
//! direction. Each diagonal owns the two bits of the high nibble that sit four
//! places above the bits of its two orthogonal parts, so that shifting the
//! orthogonal bits left by four lines them up with the diagonals they guard.

use vstd::prelude::*;

verus! {

pub const N_BITMASK: u8 = 0b0000_1000;
pub const E_BITMASK: u8 = 0b0000_0100;
pub const S_BITMASK: u8 = 0b0000_0010;
pub const W_BITMASK: u8 = 0b0000_0001;
pub const NE_BITMASK: u8 = 0b1100_0000;
pub const SE_BITMASK: u8 = 0b0110_0000;
pub const SW_BITMASK: u8 = 0b0011_0000;
pub const NW_BITMASK: u8 = 0b1001_0000;

/// Mask of a tile that is solid in every direction.
pub const WALL_BITMASK: u8 = 0b1111_1111;
pub const N_SUBTILE_BITMASK: u8 = 0b1101_1000;
pub const E_SUBTILE_BITMASK: u8 = 0b1110_0100;
pub const S_SUBTILE_BITMASK: u8 = 0b0111_0010;
pub const W_SUBTILE_BITMASK: u8 = 0b1011_0001;
pub const NE_SUBTILE_BITMASK: u8 = 0b1100_1100;
pub const SE_SUBTILE_BITMASK: u8 = 0b0110_0110;
pub const SW_SUBTILE_BITMASK: u8 = 0b0011_0011;
pub const NW_SUBTILE_BITMASK: u8 = 0b1001_1001;

/// Cost of one step to an orthogonal neighbour.
pub const ORTHOGONAL_COST: u32 = 10;

/// Cost of one step to a diagonal neighbour, about ten times the square root of two.
pub const DIAGONAL_COST: u32 = 14;

/// One of the eight neighbours of a tile. North is towards growing rows.
#[derive(Clone, Copy, Debug, PartialEq, Eq, Structural)]
pub enum Direction {
    North,
    East,
    South,
    West,
    NorthEast,
    SouthEast,
    SouthWest,
    NorthWest,
}

impl Direction {
    /// Column offset of the neighbour in this direction.
    pub open spec fn dx(self) -> int {
        match self {
            Direction::North | Direction::South => 0,
            Direction::East | Direction::NorthEast | Direction::SouthEast => 1,
            Direction::West | Direction::SouthWest | Direction::NorthWest => -1,
        }
    }

    /// Row offset of the neighbour in this direction.
    pub open spec fn dy(self) -> int {
        match self {
            Direction::East | Direction::West => 0,
            Direction::North | Direction::NorthEast | Direction::NorthWest => 1,
            Direction::South | Direction::SouthEast | Direction::SouthWest => -1,
        }
    }

    pub open spec fn is_diagonal(self) -> bool {
        self.dx() != 0 && self.dy() != 0
    }

    /// Cost of one step in this direction.
    pub open spec fn step_cost(self) -> int {
        if self.is_diagonal() {
            14
        } else {
            10
        }
    }

    /// The bits that stand for this direction in a wall mask.
    pub open spec fn mask(self) -> u8 {
        match self {
            Direction::North => N_BITMASK,
            Direction::East => E_BITMASK,
            Direction::South => S_BITMASK,
            Direction::West => W_BITMASK,
            Direction::NorthEast => NE_BITMASK,
            Direction::SouthEast => SE_BITMASK,
            Direction::SouthWest => SW_BITMASK,
            Direction::NorthWest => NW_BITMASK,
        }
    }

    /// Place of this direction in the order in which neighbours are visited:
    /// the four orthogonal ones first, then the four diagonals.
    pub open spec fn rank(self) -> int {
        match self {
            Direction::North => 0,
            Direction::East => 1,
            Direction::South => 2,
            Direction::West => 3,
            Direction::NorthEast => 4,
            Direction::SouthEast => 5,
            Direction::SouthWest => 6,
            Direction::NorthWest => 7,
        }
    }

    /// The direction visited at place `rank`.
    pub open spec fn at_rank(rank: int) -> Direction {
        if rank == 0 {
            Direction::North
        } else if rank == 1 {
            Direction::East
        } else if rank == 2 {
            Direction::South
        } else if rank == 3 {
            Direction::West
        } else if rank == 4 {
            Direction::NorthEast
        } else if rank == 5 {
            Direction::SouthEast
        } else if rank == 6 {
            Direction::SouthWest
        } else {
            Direction::NorthWest
        }
    }

    /// For a diagonal, the orthogonal direction that shares its row offset;
    /// an orthogonal direction is its own part.
    pub open spec fn vertical_part(self) -> Direction {
        match self {
            Direction::NorthEast | Direction::NorthWest => Direction::North,
            Direction::SouthEast | Direction::SouthWest => Direction::South,
            _ => self,
        }
    }

    /// For a diagonal, the orthogonal direction that shares its column offset;
    /// an orthogonal direction is its own part.
    pub open spec fn horizontal_part(self) -> Direction {
        match self {
            Direction::NorthEast | Direction::SouthEast => Direction::East,
            Direction::NorthWest | Direction::SouthWest => Direction::West,
            _ => self,
        }
    }

    /// The direction that points the other way.
    pub open spec fn reversed(self) -> Direction {
        match self {
            Direction::North => Direction::South,
            Direction::East => Direction::West,
            Direction::South => Direction::North,
            Direction::West => Direction::East,
            Direction::NorthEast => Direction::SouthWest,
            Direction::SouthEast => Direction::NorthWest,
            Direction::SouthWest => Direction::NorthEast,
            Direction::NorthWest => Direction::SouthEast,
        }
    }

    /// All eight directions in visiting order.
    pub fn all() -> (dirs: [Direction; 8])
        ensures
            forall|k: int| 0 <= k < 8 ==> #[trigger] dirs[k] == Direction::at_rank(k),
    {
        [
            Direction::North,
            Direction::East,
            Direction::South,
            Direction::West,
            Direction::NorthEast,
            Direction::SouthEast,
            Direction::SouthWest,
            Direction::NorthWest,
        ]
    }

    /// Column and row offset of the neighbour in this direction.
    pub fn offset(self) -> (d: (i8, i8))
        ensures
            d.0 == self.dx(),
            d.1 == self.dy(),
    {
        match self {
            Direction::North => (0, 1),
            Direction::East => (1, 0),
            Direction::South => (0, -1),
            Direction::West => (-1, 0),
            Direction::NorthEast => (1, 1),
            Direction::SouthEast => (1, -1),
            Direction::SouthWest => (-1, -1),
            Direction::NorthWest => (-1, 1),
        }
    }

    pub fn diagonal(self) -> (b: bool)
        ensures
            b == self.is_diagonal(),
    {
        match self {
            Direction::North | Direction::East | Direction::South | Direction::West => false,
            _ => true,
        }
    }

    /// Cost of one step in this direction: 10 orthogonally, 14 diagonally.
    pub fn cost(self) -> (c: u32)
        ensures
            c == self.step_cost(),
            c == 10 || c == 14,
    {
        if self.diagonal() {
            DIAGONAL_COST
        } else {
            ORTHOGONAL_COST
        }
    }

    /// The bits that stand for this direction in a wall mask.
    pub fn bitmask(self) -> (m: u8)
        ensures
            m == self.mask(),
            m != 0,
    {
        match self {
            Direction::North => N_BITMASK,
            Direction::East => E_BITMASK,
            Direction::South => S_BITMASK,
            Direction::West => W_BITMASK,
            Direction::NorthEast => NE_BITMASK,
            Direction::SouthEast => SE_BITMASK,
            Direction::SouthWest => SW_BITMASK,
            Direction::NorthWest => NW_BITMASK,
        }
    }

    /// The direction that points the other way.
    pub fn opposite(self) -> (o: Direction)
        ensures
            o == self.reversed(),
            o.dx() == -self.dx(),
            o.dy() == -self.dy(),
    {
        match self {
            Direction::North => Direction::South,
            Direction::East => Direction::West,
            Direction::South => Direction::North,
            Direction::West => Direction::East,
            Direction::NorthEast => Direction::SouthWest,
            Direction::SouthEast => Direction::NorthWest,
            Direction::SouthWest => Direction::NorthEast,
            Direction::NorthWest => Direction::SouthEast,
        }
    }
}

/// Whether `wall_mask` records a wall in the orthogonal direction `d`.
pub open spec fn has_wall(wall_mask: u8, d: Direction) -> bool {
    wall_mask & d.mask() != 0
}

/// A diagonal step is blocked when the two orthogonal neighbours beside it are
/// both walls: nothing moves through the corner where two walls meet.
/// Orthogonal steps are never blocked by this rule.
pub open spec fn diagonal_blocked(wall_mask: u8, d: Direction) -> bool {
    d.is_diagonal() && has_wall(wall_mask, d.vertical_part()) && has_wall(
        wall_mask,
        d.horizontal_part(),
    )
}

/// Decides whether the walls recorded in the low nibble of `wall_mask` forbid
/// a step in `direction`.
pub fn diagonal_is_blocked(wall_mask: u8, direction: Direction) -> (blocked: bool)
    ensures
        blocked == diagonal_blocked(wall_mask, direction),
{
    let north: bool = wall_mask & N_BITMASK != 0;
    let east: bool = wall_mask & E_BITMASK != 0;
    let south: bool = wall_mask & S_BITMASK != 0;
    let west: bool = wall_mask & W_BITMASK != 0;
    match direction {
        Direction::NorthEast => north && east,
        Direction::SouthEast => south && east,
        Direction::SouthWest => south && west,
        Direction::NorthWest => north && west,
        _ => false,
    }
}

/// The rule above agrees with the shifted-mask test: the orthogonal bits moved
/// up by four cover the whole mask of the diagonal.
pub proof fn lemma_diagonal_blocked_by_shift(wall_mask: u8, d: Direction)
    requires
        d.is_diagonal(),
    ensures
        diagonal_blocked(wall_mask, d) <==> (wall_mask << 4) & d.mask() == d.mask(),
{
    assert((wall_mask & 8 != 0 && wall_mask & 4 != 0) <==> (wall_mask << 4) & 0xC0 == 0xC0)
        by (bit_vector);
    assert((wall_mask & 2 != 0 && wall_mask & 4 != 0) <==> (wall_mask << 4) & 0x60 == 0x60)
        by (bit_vector);
    assert((wall_mask & 2 != 0 && wall_mask & 1 != 0) <==> (wall_mask << 4) & 0x30 == 0x30)
        by (bit_vector);
    assert((wall_mask & 8 != 0 && wall_mask & 1 != 0) <==> (wall_mask << 4) & 0x90 == 0x90)
        by (bit_vector);
}

/// What recording a wall in direction `d` does to the orthogonal bits of a
/// mask: the bit of `d` is set if `d` is orthogonal, and no other orthogonal
/// bit changes. The mask is never zero afterwards.
pub proof fn lemma_record_wall(wall_mask: u8, d: Direction, o: Direction)
    requires
        !o.is_diagonal(),
    ensures
        has_wall(wall_mask | d.mask(), o) == (has_wall(wall_mask, o) || o == d),
        wall_mask | d.mask() != 0,
{
    let m: u8 = d.mask();
    let b: u8 = o.mask();
    assert(b == 1 || b == 2 || b == 4 || b == 8);
    assert(m == 1 || m == 2 || m == 4 || m == 8 || m == 0xC0 || m == 0x60 || m == 0x30 || m
        == 0x90);
    assert((b == 1 || b == 2 || b == 4 || b == 8) && (m == 1 || m == 2 || m == 4 || m == 8 || m
        == 0xC0 || m == 0x60 || m == 0x30 || m == 0x90) ==> (((wall_mask | m) & b != 0) == (
    wall_mask & b != 0 || b == m)) && (wall_mask | m) != 0) by (bit_vector);
}

} // verus!
