//! Points: a grid coordinate together with the colour painted there.

use vstd::prelude::*;

verus! {

/// The five fields of a point, in the order by which points are compared.
pub type Key = (u8, u8, u8, usize, usize);

/// A pixel coordinate paired with the colour to paint there.
///
/// Points are ordered by colour first and by coordinate second: the order is
/// lexicographic on `(r, g, b, x, y)`.
#[derive(Debug, Clone, Copy, PartialEq, Eq, Structural, PartialOrd, Ord, Hash)]
pub struct Point {
    pub r: u8,
    pub g: u8,
    pub b: u8,
    pub x: usize,
    pub y: usize,
}

/// Strict lexicographic order on keys.
pub open spec fn key_lt(a: Key, b: Key) -> bool {
    ||| a.0 < b.0
    ||| a.0 == b.0 && a.1 < b.1
    ||| a.0 == b.0 && a.1 == b.1 && a.2 < b.2
    ||| a.0 == b.0 && a.1 == b.1 && a.2 == b.2 && a.3 < b.3
    ||| a.0 == b.0 && a.1 == b.1 && a.2 == b.2 && a.3 == b.3 && a.4 < b.4
}

impl Point {
    /// The point as the tuple `(r, g, b, x, y)`.
    pub open spec fn key(self) -> Key {
        (self.r, self.g, self.b, self.x, self.y)
    }

    /// The point that a tuple `(r, g, b, x, y)` stands for.
    pub open spec fn of_key(k: Key) -> Point {
        Point { r: k.0, g: k.1, b: k.2, x: k.3, y: k.4 }
    }

    /// Whether `self` comes strictly before `other`.
    pub open spec fn precedes(self, other: Point) -> bool {
        key_lt(self.key(), other.key())
    }

    /// The tuple `(r, g, b, x, y)` of this point.
    pub fn to_key(&self) -> (k: Key)
        ensures
            k == self.key(),
    {
        (self.r, self.g, self.b, self.x, self.y)
    }

    /// The point with the fields of `k`.
    pub fn from_key(k: Key) -> (p: Point)
        ensures
            p == Point::of_key(k),
            p.key() == k,
    {
        Point { r: k.0, g: k.1, b: k.2, x: k.3, y: k.4 }
    }

    /// Decides the order of two points.
    pub fn comes_before(&self, other: &Point) -> (b: bool)
        ensures
            b == self.precedes(*other),
    {
        if self.r != other.r {
            self.r < other.r
        } else if self.g != other.g {
            self.g < other.g
        } else if self.b != other.b {
            self.b < other.b
        } else if self.x != other.x {
            self.x < other.x
        } else {
            self.y < other.y
        }
    }
}

} // verus!
