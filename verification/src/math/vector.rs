//! Points and displacements on the integer lattice.

use vstd::prelude::*;

verus! {

/// A point of the lattice, or a displacement between two of its points.
#[derive(Debug, Clone, Copy, PartialEq, Eq, Structural)]
pub struct Vector3 {
    pub x: i64,
    pub y: i64,
    pub z: i64,
}

/// Whether `v` can be held in an `i64`.
pub open spec fn fits_i64(v: int) -> bool {
    i64::MIN <= v <= i64::MAX
}

/// Half the sum of `a` and `b`, rounded towards negative infinity.
pub open spec fn mid(a: int, b: int) -> int {
    (a + b) / 2
}

/// Half the sum of two coordinates, rounded towards negative infinity.
///
/// The sum is formed in a wider type, so every pair of coordinates is accepted.
pub fn halfway(a: i64, b: i64) -> (m: i64)
    ensures
        m == mid(a as int, b as int),
{
    let sum: i128 = a as i128 + b as i128;
    let quotient: i128 = sum / 2;
    if sum % 2 < 0 {
        (quotient - 1) as i64
    } else {
        quotient as i64
    }
}

impl Vector3 {
    /// The origin of the lattice.
    pub fn zero() -> (v: Self)
        ensures
            v == (Vector3 { x: 0, y: 0, z: 0 }),
    {
        Vector3 { x: 0, y: 0, z: 0 }
    }

    /// The vector with the given components.
    pub fn new(x: i64, y: i64, z: i64) -> (v: Self)
        ensures
            v == (Vector3 { x, y, z }),
    {
        Vector3 { x, y, z }
    }

    /// The componentwise sum, as a triple of unbounded integers.
    pub open spec fn plus(self, rhs: Vector3) -> (int, int, int) {
        (self.x + rhs.x, self.y + rhs.y, self.z + rhs.z)
    }

    /// The componentwise difference, as a triple of unbounded integers.
    pub open spec fn minus(self, rhs: Vector3) -> (int, int, int) {
        (self.x - rhs.x, self.y - rhs.y, self.z - rhs.z)
    }

    /// Whether each component of the triple can be held in an `i64`.
    pub open spec fn representable(t: (int, int, int)) -> bool {
        fits_i64(t.0) && fits_i64(t.1) && fits_i64(t.2)
    }

    /// The lattice vector with the components of a representable triple.
    pub open spec fn from_triple(t: (int, int, int)) -> Vector3 {
        Vector3 { x: t.0 as i64, y: t.1 as i64, z: t.2 as i64 }
    }
}

impl core::ops::Add for Vector3 {
    type Output = Vector3;

    fn add(self, rhs: Vector3) -> (sum: Vector3) {
        Vector3 { x: self.x + rhs.x, y: self.y + rhs.y, z: self.z + rhs.z }
    }
}

impl vstd::std_specs::ops::AddSpecImpl for Vector3 {
    open spec fn obeys_add_spec() -> bool {
        true
    }

    open spec fn add_req(self, rhs: Vector3) -> bool {
        Vector3::representable(self.plus(rhs))
    }

    open spec fn add_spec(self, rhs: Vector3) -> Vector3 {
        Vector3::from_triple(self.plus(rhs))
    }
}

impl core::ops::Sub for Vector3 {
    type Output = Vector3;

    fn sub(self, rhs: Vector3) -> (difference: Vector3) {
        Vector3 { x: self.x - rhs.x, y: self.y - rhs.y, z: self.z - rhs.z }
    }
}

impl vstd::std_specs::ops::SubSpecImpl for Vector3 {
    open spec fn obeys_sub_spec() -> bool {
        true
    }

    open spec fn sub_req(self, rhs: Vector3) -> bool {
        Vector3::representable(self.minus(rhs))
    }

    open spec fn sub_spec(self, rhs: Vector3) -> Vector3 {
        Vector3::from_triple(self.minus(rhs))
    }
}

} // verus!
