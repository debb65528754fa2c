//! Two-dimensional integer vectors, used for grid positions and unit offsets.

use vstd::prelude::*;
use vstd::std_specs::ops::{AddSpecImpl, MulSpecImpl, SubSpecImpl};

verus! {

/// A point or offset on the integer grid.
#[derive(Clone, Copy, Debug, Default, Eq, Hash, Ord, PartialEq, PartialOrd, Structural)]
pub struct Vec2 {
    pub x: i32,
    pub y: i32,
}

impl Vec2 {
    /// The unit offset pointing right.
    #[inline]
    pub fn right() -> (v: Vec2)
        ensures
            v == (Vec2 { x: 1, y: 0 }),
    {
        Vec2 { x: 1, y: 0 }
    }

    /// The unit offset pointing up.
    #[inline]
    pub fn up() -> (v: Vec2)
        ensures
            v == (Vec2 { x: 0, y: 1 }),
    {
        Vec2 { x: 0, y: 1 }
    }

    /// The unit offset pointing left.
    #[inline]
    pub fn left() -> (v: Vec2)
        ensures
            v == (Vec2 { x: -1i32, y: 0 }),
    {
        Vec2 { x: -1, y: 0 }
    }

    /// The unit offset pointing down.
    #[inline]
    pub fn down() -> (v: Vec2)
        ensures
            v == (Vec2 { x: 0, y: -1i32 }),
    {
        Vec2 { x: 0, y: -1 }
    }

    /// The origin.
    #[inline]
    pub fn zero() -> (v: Vec2)
        ensures
            v == (Vec2 { x: 0, y: 0 }),
    {
        Vec2 { x: 0, y: 0 }
    }

    #[inline]
    pub fn new(x: i32, y: i32) -> (v: Vec2)
        ensures
            v == (Vec2 { x, y }),
    {
        Vec2 { x, y }
    }

    /// Absolute value of an integer.
    pub open spec fn magnitude(n: int) -> int {
        if n < 0 {
            -n
        } else {
            n
        }
    }

    /// Component-wise absolute value. The most negative `i32` has no
    /// absolute value in `i32`, so neither component may be `i32::MIN`.
    #[inline]
    pub fn abs(self) -> (v: Vec2)
        requires
            self.x > i32::MIN,
            self.y > i32::MIN,
        ensures
            v.x == Self::magnitude(self.x as int),
            v.y == Self::magnitude(self.y as int),
    {
        Vec2 {
            x: if self.x < 0 { -self.x } else { self.x },
            y: if self.y < 0 { -self.y } else { self.y },
        }
    }

    /// The Manhattan distance between two points, as a mathematical integer.
    pub open spec fn manhattan(self, other: Vec2) -> int {
        Self::magnitude(self.x - other.x) + Self::magnitude(self.y - other.y)
    }
}

impl core::ops::Add for Vec2 {
    type Output = Vec2;

    #[inline]
    fn add(self, other: Vec2) -> (v: Vec2) {
        Vec2 { x: self.x + other.x, y: self.y + other.y }
    }
}

impl AddSpecImpl for Vec2 {
    open spec fn obeys_add_spec() -> bool {
        true
    }

    open spec fn add_req(self, other: Vec2) -> bool {
        &&& i32::MIN <= self.x + other.x <= i32::MAX
        &&& i32::MIN <= self.y + other.y <= i32::MAX
    }

    open spec fn add_spec(self, other: Vec2) -> Vec2 {
        Vec2 { x: (self.x + other.x) as i32, y: (self.y + other.y) as i32 }
    }
}

impl core::ops::Sub for Vec2 {
    type Output = Vec2;

    #[inline]
    fn sub(self, other: Vec2) -> (v: Vec2) {
        Vec2 { x: self.x - other.x, y: self.y - other.y }
    }
}

impl SubSpecImpl for Vec2 {
    open spec fn obeys_sub_spec() -> bool {
        true
    }

    open spec fn sub_req(self, other: Vec2) -> bool {
        &&& i32::MIN <= self.x - other.x <= i32::MAX
        &&& i32::MIN <= self.y - other.y <= i32::MAX
    }

    open spec fn sub_spec(self, other: Vec2) -> Vec2 {
        Vec2 { x: (self.x - other.x) as i32, y: (self.y - other.y) as i32 }
    }
}

impl core::ops::Mul<i32> for Vec2 {
    type Output = Vec2;

    #[inline]
    fn mul(self, other: i32) -> (v: Vec2) {
        Vec2 { x: self.x * other, y: self.y * other }
    }
}

impl MulSpecImpl<i32> for Vec2 {
    open spec fn obeys_mul_spec() -> bool {
        true
    }

    open spec fn mul_req(self, other: i32) -> bool {
        &&& i32::MIN <= self.x * other <= i32::MAX
        &&& i32::MIN <= self.y * other <= i32::MAX
    }

    open spec fn mul_spec(self, other: i32) -> Vec2 {
        Vec2 { x: (self.x * other) as i32, y: (self.y * other) as i32 }
    }
}

impl core::ops::AddAssign for Vec2 {
    #[inline]
    fn add_assign(&mut self, other: Vec2)
        requires
            i32::MIN <= old(self).x + other.x <= i32::MAX,
            i32::MIN <= old(self).y + other.y <= i32::MAX,
        ensures
            final(self).x == old(self).x + other.x,
            final(self).y == old(self).y + other.y,
    {
        *self = *self + other;
    }
}

impl core::ops::SubAssign for Vec2 {
    #[inline]
    fn sub_assign(&mut self, other: Vec2)
        requires
            i32::MIN <= old(self).x - other.x <= i32::MAX,
            i32::MIN <= old(self).y - other.y <= i32::MAX,
        ensures
            final(self).x == old(self).x - other.x,
            final(self).y == old(self).y - other.y,
    {
        *self = *self - other;
    }
}

impl core::ops::MulAssign<i32> for Vec2 {
    #[inline]
    fn mul_assign(&mut self, other: i32)
        requires
            i32::MIN <= old(self).x * other <= i32::MAX,
            i32::MIN <= old(self).y * other <= i32::MAX,
        ensures
            final(self).x == old(self).x * other,
            final(self).y == old(self).y * other,
    {
        *self = *self * other;
    }
}

} // verus!
