use vstd::prelude::*;

verus! {

/// Marker for the scalar types a plane vector may hold.
pub trait Math: Sized {
}

impl Math for i8 {

}

impl Math for i16 {

}

impl Math for i32 {

}

impl Math for i64 {

}

/// A vector in the horizontal plane; `x` and `z` follow the world's axes.
#[derive(Clone, Copy, Debug, PartialEq, Eq, Hash)]
pub struct Vec2<T> {
    pub x: T,
    pub z: T,
}

impl<T: Math + Copy> Vec2<T> {
    pub fn new(x: T, z: T) -> (r: Self)
        ensures
            r.x == x,
            r.z == z,
    {
        Vec2 { x, z }
    }
}

impl Vec2<i32> {
    pub fn length_squared(&self) -> (r: i32)
        requires
            self.x * self.x + self.z * self.z <= i32::MAX,
        ensures
            r == self.x * self.x + self.z * self.z,
    {
        proof {
            assert(self.x * self.x >= 0 && self.z * self.z >= 0) by (nonlinear_arith);
        }
        self.x * self.x + self.z * self.z
    }

    pub fn add(&self, other: &Vec2<i32>) -> (r: Self)
        requires
            i32::MIN <= self.x + other.x <= i32::MAX,
            i32::MIN <= self.z + other.z <= i32::MAX,
        ensures
            r.x == self.x + other.x,
            r.z == self.z + other.z,
    {
        Vec2 { x: self.x + other.x, z: self.z + other.z }
    }

    pub fn sub(&self, other: &Vec2<i32>) -> (r: Self)
        requires
            i32::MIN <= self.x - other.x <= i32::MAX,
            i32::MIN <= self.z - other.z <= i32::MAX,
        ensures
            r.x == self.x - other.x,
            r.z == self.z - other.z,
    {
        Vec2 { x: self.x - other.x, z: self.z - other.z }
    }

    pub fn multiply(self, x: i32, z: i32) -> (r: Self)
        requires
            i32::MIN <= self.x * x <= i32::MAX,
            i32::MIN <= self.z * z <= i32::MAX,
        ensures
            r.x == self.x * x,
            r.z == self.z * z,
    {
        Vec2 { x: self.x * x, z: self.z * z }
    }
}

} // verus!
