use vstd::prelude::*;

verus! {

/// Marker for the scalar types a space vector may hold.
pub trait Math: Sized {
}

impl Math for i8 {

}

impl Math for i16 {

}

impl Math for i32 {

}

impl Math for i64 {

}

impl Math for u8 {

}

/// A vector in space; `y` is the vertical axis.
#[derive(Clone, Copy, Debug, PartialEq, Eq, Hash)]
pub struct Vec3<T> {
    pub x: T,
    pub y: T,
    pub z: T,
}

impl<T: Math + Copy> Vec3<T> {
    pub fn new(x: T, y: T, z: T) -> (r: Self)
        ensures
            r.x == x,
            r.y == y,
            r.z == z,
    {
        Vec3 { x, y, z }
    }

    pub fn splat(c: T) -> (r: Self)
        ensures
            r.x == c,
            r.y == c,
            r.z == c,
    {
        Vec3 { x: c, y: c, z: c }
    }
}

impl Vec3<i32> {
    pub fn length_squared(&self) -> (r: i32)
        requires
            self.x * self.x + self.y * self.y + self.z * self.z <= i32::MAX,
        ensures
            r == self.x * self.x + self.y * self.y + self.z * self.z,
    {
        proof {
            assert(self.x * self.x >= 0 && self.y * self.y >= 0 && self.z * self.z >= 0)
                by (nonlinear_arith);
        }
        self.x * self.x + self.y * self.y + self.z * self.z
    }

    pub fn horizontal_length_squared(&self) -> (r: i32)
        requires
            self.x * self.x + self.z * self.z <= i32::MAX,
        ensures
            r == self.x * self.x + self.z * self.z,
    {
        proof {
            assert(self.x * self.x >= 0 && self.z * self.z >= 0) by (nonlinear_arith);
        }
        self.x * self.x + self.z * self.z
    }

    pub fn add(&self, other: &Vec3<i32>) -> (r: Self)
        requires
            i32::MIN <= self.x + other.x <= i32::MAX,
            i32::MIN <= self.y + other.y <= i32::MAX,
            i32::MIN <= self.z + other.z <= i32::MAX,
        ensures
            r.x == self.x + other.x,
            r.y == self.y + other.y,
            r.z == self.z + other.z,
    {
        Vec3 { x: self.x + other.x, y: self.y + other.y, z: self.z + other.z }
    }

    pub fn add_raw(&self, x: i32, y: i32, z: i32) -> (r: Self)
        requires
            i32::MIN <= self.x + x <= i32::MAX,
            i32::MIN <= self.y + y <= i32::MAX,
            i32::MIN <= self.z + z <= i32::MAX,
        ensures
            r.x == self.x + x,
            r.y == self.y + y,
            r.z == self.z + z,
    {
        Vec3 { x: self.x + x, y: self.y + y, z: self.z + z }
    }

    pub fn sub(&self, other: &Vec3<i32>) -> (r: Self)
        requires
            i32::MIN <= self.x - other.x <= i32::MAX,
            i32::MIN <= self.y - other.y <= i32::MAX,
            i32::MIN <= self.z - other.z <= i32::MAX,
        ensures
            r.x == self.x - other.x,
            r.y == self.y - other.y,
            r.z == self.z - other.z,
    {
        Vec3 { x: self.x - other.x, y: self.y - other.y, z: self.z - other.z }
    }

    pub fn multiply(self, x: i32, y: i32, z: i32) -> (r: Self)
        requires
            i32::MIN <= self.x * x <= i32::MAX,
            i32::MIN <= self.y * y <= i32::MAX,
            i32::MIN <= self.z * z <= i32::MAX,
        ensures
            r.x == self.x * x,
            r.y == self.y * y,
            r.z == self.z * z,
    {
        Vec3 { x: self.x * x, y: self.y * y, z: self.z * z }
    }

    pub fn squared_distance_to_vec(&self, other: Self) -> (r: i32)
        requires
            i32::MIN <= self.x - other.x <= i32::MAX,
            i32::MIN <= self.y - other.y <= i32::MAX,
            i32::MIN <= self.z - other.z <= i32::MAX,
            (self.x - other.x) * (self.x - other.x) + (self.y - other.y) * (self.y - other.y) + (
            self.z - other.z) * (self.z - other.z) <= i32::MAX,
        ensures
            r == (self.x - other.x) * (self.x - other.x) + (self.y - other.y) * (self.y - other.y)
                + (self.z - other.z) * (self.z - other.z),
    {
        self.squared_distance_to(other.x, other.y, other.z)
    }

    pub fn squared_distance_to(&self, x: i32, y: i32, z: i32) -> (r: i32)
        requires
            i32::MIN <= self.x - x <= i32::MAX,
            i32::MIN <= self.y - y <= i32::MAX,
            i32::MIN <= self.z - z <= i32::MAX,
            (self.x - x) * (self.x - x) + (self.y - y) * (self.y - y) + (self.z - z) * (self.z
                - z) <= i32::MAX,
        ensures
            r == (self.x - x) * (self.x - x) + (self.y - y) * (self.y - y) + (self.z - z) * (self.z
                - z),
    {
        let delta_x: i32 = self.x - x;
        let delta_y: i32 = self.y - y;
        let delta_z: i32 = self.z - z;
        proof {
            assert(delta_x * delta_x >= 0 && delta_y * delta_y >= 0 && delta_z * delta_z >= 0)
                by (nonlinear_arith);
        }
        delta_x * delta_x + delta_y * delta_y + delta_z * delta_z
    }
}

} // verus!
