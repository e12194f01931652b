use vstd::prelude::*;
use crate::vector2::Vec2;
use crate::vector3::Vec3;

verus! {

/// An absolute block position in the world.
#[derive(Clone, Copy, PartialEq, Eq)]
pub struct BlockPos(pub Vec3<i32>);

/// Euclidean division of `v` by 16: the quotient is rounded toward negative
/// infinity and the remainder is always in `[0, 16)`.
fn div_rem_euclid_16(v: i32) -> (r: (i32, i32))
    ensures
        v == 16 * r.0 + r.1,
        0 <= r.1 < 16,
{
    if v >= 0 {
        (v / 16, v % 16)
    } else {
        let m: i32 = -(v + 1);
        let a: i32 = m / 16;
        let b: i32 = m % 16;
        (-a - 1, 15 - b)
    }
}

impl BlockPos {
    /// Splits an absolute block position into the 16-block-square chunk that
    /// holds it and the position relative to that chunk's corner. The chunk
    /// coordinate is the floor of the block coordinate divided by 16, so
    /// negative positions land in negative chunks rather than being truncated
    /// toward zero.
    pub fn chunk_and_chunk_relative_position(&self) -> (r: (Vec2<i32>, Vec3<i32>))
        ensures
            self.0.x == 16 * r.0.x + r.1.x,
            self.0.z == 16 * r.0.z + r.1.z,
            0 <= r.1.x < 16,
            0 <= r.1.z < 16,
            r.1.y == self.0.y,
    {
        let (z_chunk, z_rem) = div_rem_euclid_16(self.0.z);
        let (x_chunk, x_rem) = div_rem_euclid_16(self.0.x);
        let chunk_coordinate = Vec2 { x: x_chunk, z: z_chunk };
        let relative = Vec3 { x: x_rem, z: z_rem, y: self.0.y };
        (chunk_coordinate, relative)
    }
}

} // verus!
