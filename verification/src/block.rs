use vstd::prelude::*;
use crate::vector3::Vec3;

verus! {

/// One of the six faces a block can be approached from.
#[derive(Clone, Copy, Debug, PartialEq, Eq, Structural)]
pub enum BlockDirection {
    Bottom,
    Top,
    North,
    South,
    West,
    East,
}

/// The error an out-of-range face number converts to.
#[derive(Debug, PartialEq, Eq, Structural)]
pub struct InvalidBlockFace;

impl BlockDirection {
    /// The unit offset a direction stands for, as `(x, y, z)`.
    pub open spec fn offset_spec(self) -> (int, int, int) {
        match self {
            BlockDirection::Bottom => (0, -1, 0),
            BlockDirection::Top => (0, 1, 0),
            BlockDirection::North => (0, 0, -1),
            BlockDirection::South => (0, 0, 1),
            BlockDirection::West => (-1, 0, 0),
            BlockDirection::East => (1, 0, 0),
        }
    }

    pub open spec fn opposite_spec(self) -> BlockDirection {
        match self {
            BlockDirection::Bottom => BlockDirection::Top,
            BlockDirection::Top => BlockDirection::Bottom,
            BlockDirection::North => BlockDirection::South,
            BlockDirection::South => BlockDirection::North,
            BlockDirection::West => BlockDirection::East,
            BlockDirection::East => BlockDirection::West,
        }
    }

    /// Decodes a face number in `[0, 6)`; anything else is invalid.
    pub fn try_from(value: i32) -> (r: Result<BlockDirection, InvalidBlockFace>)
        ensures
            0 <= value < 6 <==> r is Ok,
            r matches Ok(d) ==> d == (if value == 0 {
                BlockDirection::Bottom
            } else if value == 1 {
                BlockDirection::Top
            } else if value == 2 {
                BlockDirection::North
            } else if value == 3 {
                BlockDirection::South
            } else if value == 4 {
                BlockDirection::West
            } else {
                BlockDirection::East
            }),
    {
        match value {
            0 => Ok(Self::Bottom),
            1 => Ok(Self::Top),
            2 => Ok(Self::North),
            3 => Ok(Self::South),
            4 => Ok(Self::West),
            5 => Ok(Self::East),
            _ => Err(InvalidBlockFace),
        }
    }

    pub fn to_offset(&self) -> (r: Vec3<i32>)
        ensures
            (r.x as int, r.y as int, r.z as int) == self.offset_spec(),
    {
        match self {
            BlockDirection::Bottom => Vec3 { x: 0, y: -1, z: 0 },
            BlockDirection::Top => Vec3 { x: 0, y: 1, z: 0 },
            BlockDirection::North => Vec3 { x: 0, y: 0, z: -1 },
            BlockDirection::South => Vec3 { x: 0, y: 0, z: 1 },
            BlockDirection::West => Vec3 { x: -1, y: 0, z: 0 },
            BlockDirection::East => Vec3 { x: 1, y: 0, z: 0 },
        }
    }

    pub fn opposite(&self) -> (r: BlockDirection)
        ensures
            r == self.opposite_spec(),
    {
        match self {
            BlockDirection::Bottom => BlockDirection::Top,
            BlockDirection::Top => BlockDirection::Bottom,
            BlockDirection::North => BlockDirection::South,
            BlockDirection::South => BlockDirection::North,
            BlockDirection::West => BlockDirection::East,
            BlockDirection::East => BlockDirection::West,
        }
    }
}

} // verus!
