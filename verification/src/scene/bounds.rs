//! Axis-aligned boxes on the lattice.

use vstd::prelude::*;
use crate::math::vector::{fits_i64, halfway, mid, Vector3};

verus! {

/// An axis-aligned box, given by its corners of least and greatest coordinates.
///
/// No relation between the corners is enforced; see [`Bounds::well_formed`].
#[derive(Debug, Clone, Copy, PartialEq, Eq, Structural)]
pub struct Bounds {
    pub min: Vector3,
    pub max: Vector3,
}

/// The lesser of two coordinates.
pub open spec fn least(a: i64, b: i64) -> i64 {
    if a <= b { a } else { b }
}

/// The greater of two coordinates.
pub open spec fn greatest(a: i64, b: i64) -> i64 {
    if a >= b { a } else { b }
}

/// The lesser of two coordinates.
fn lesser(a: i64, b: i64) -> (m: i64)
    ensures
        m == least(a, b),
{
    if a <= b { a } else { b }
}

/// The greater of two coordinates.
fn greater(a: i64, b: i64) -> (m: i64)
    ensures
        m == greatest(a, b),
{
    if a >= b { a } else { b }
}

/// The least power of two that is strictly greater than `n`.
pub open spec fn power_of_two_above(n: int) -> int
    decreases n,
{
    if n < 1 {
        1
    } else {
        2 * power_of_two_above(n / 2)
    }
}

/// Whether `p` is one of 1, 2, 4, 8, ...
pub open spec fn is_power_of_two(p: int) -> bool
    decreases p,
{
    p == 1 || (p > 1 && p % 2 == 0 && is_power_of_two(p / 2))
}

/// `power_of_two_above(n)` is a power of two, it is greater than `n`, and the
/// power of two before it is not: so it is the least one above `n`.
pub proof fn lemma_power_of_two_above(n: int)
    requires
        0 <= n,
    ensures
        is_power_of_two(power_of_two_above(n)),
        n < power_of_two_above(n),
        power_of_two_above(n) / 2 <= n,
    decreases n,
{
    if n >= 1 {
        lemma_power_of_two_above(n / 2);
    }
}

/// Doubling the power reached so far halves what is left to cover.
proof fn lemma_power_of_two_above_step(n: int, p: int)
    requires
        0 < p <= n,
    ensures
        p * power_of_two_above(n / p) == (2 * p) * power_of_two_above(n / (2 * p)),
{
    assert(n / p >= 1) by (nonlinear_arith)
        requires
            0 < p <= n,
    ;
    vstd::arithmetic::div_mod::lemma_div_denominator(n, p, 2);
    assert(p * 2 == 2 * p);
    assert(p * (2 * power_of_two_above((n / p) / 2)) == (2 * p) * power_of_two_above(
        (n / p) / 2,
    )) by (nonlinear_arith);
}

/// The least power of two strictly greater than `x`.
fn next_power_of_two(x: u64) -> (p: u128)
    ensures
        p == power_of_two_above(x as int),
{
    let mut p: u128 = 1;
    while p <= x as u128
        invariant
            0 < p <= 2 * x + 1,
            power_of_two_above(x as int) == p * power_of_two_above(x as int / p as int),
        decreases 2 * x + 1 - p,
    {
        proof {
            lemma_power_of_two_above_step(x as int, p as int);
        }
        p = p * 2;
    }
    proof {
        vstd::arithmetic::div_mod::lemma_basic_div(x as int, p as int);
    }
    p
}

/// The interval that has the centre of `lo..hi` and the least power of two
/// above `hi - lo` as its length.
pub open spec fn widened(lo: int, hi: int) -> (int, int) {
    let half = power_of_two_above(hi - lo) / 2;
    (mid(lo, hi) - half, mid(lo, hi) + half)
}

/// Whether `lo..hi` is longer than one unit and its widening to a power of two
/// has ends that an `i64` can hold.
pub open spec fn can_widen(lo: int, hi: int) -> bool {
    &&& hi - lo > 1
    &&& fits_i64(widened(lo, hi).0)
    &&& fits_i64(widened(lo, hi).1)
}

/// Whether `lo..hi` can be widened to a power of two on the lattice.
fn widens(lo: i64, hi: i64) -> (can: bool)
    ensures
        can == can_widen(lo as int, hi as int),
{
    let extent: i128 = hi as i128 - lo as i128;
    if extent <= 1 {
        return false;
    }
    proof {
        lemma_power_of_two_above(extent as int);
    }
    let half: i128 = (next_power_of_two(extent as u64) / 2) as i128;
    let centre: i128 = halfway(lo, hi) as i128;
    i64::MIN as i128 <= centre - half && centre + half <= i64::MAX as i128
}

/// The ends of `lo..hi` widened to a power of two about its centre.
fn widen(lo: i64, hi: i64) -> (ends: (i64, i64))
    requires
        can_widen(lo as int, hi as int),
    ensures
        ends.0 == widened(lo as int, hi as int).0,
        ends.1 == widened(lo as int, hi as int).1,
{
    proof {
        lemma_power_of_two_above(hi - lo);
    }
    let extent: u64 = (hi as i128 - lo as i128) as u64;
    let half: i128 = (next_power_of_two(extent) / 2) as i128;
    let centre: i128 = halfway(lo, hi) as i128;
    ((centre - half) as i64, (centre + half) as i64)
}

impl Bounds {
    /// Whether the least corner is at most the greatest corner on every axis.
    pub open spec fn well_formed(self) -> bool {
        &&& self.min.x <= self.max.x
        &&& self.min.y <= self.max.y
        &&& self.min.z <= self.max.z
    }

    /// The smallest box that encloses both `self` and `other`.
    pub open spec fn hull(self, other: Bounds) -> Bounds {
        Bounds {
            min: Vector3 {
                x: least(self.min.x, other.min.x),
                y: least(self.min.y, other.min.y),
                z: least(self.min.z, other.min.z),
            },
            max: Vector3 {
                x: greatest(self.max.x, other.max.x),
                y: greatest(self.max.y, other.max.y),
                z: greatest(self.max.z, other.max.z),
            },
        }
    }

    /// Whether `inner` lies within `self`, faces included.
    pub open spec fn encloses(self, inner: Bounds) -> bool {
        &&& self.min.x <= inner.min.x && inner.max.x <= self.max.x
        &&& self.min.y <= inner.min.y && inner.max.y <= self.max.y
        &&& self.min.z <= inner.min.z && inner.max.z <= self.max.z
    }

    /// Whether the two boxes share a region of positive volume: on every axis
    /// each box begins strictly before the other ends.
    pub open spec fn overlaps(self, other: Bounds) -> bool {
        &&& self.min.x < other.max.x
        &&& self.max.x > other.min.x
        &&& self.min.y < other.max.y
        &&& self.max.y > other.min.y
        &&& self.min.z < other.max.z
        &&& self.max.z > other.min.z
    }

    /// Whether `point` lies in the box, faces included.
    pub open spec fn holds_point(self, point: Vector3) -> bool {
        &&& self.min.x <= point.x <= self.max.x
        &&& self.min.y <= point.y <= self.max.y
        &&& self.min.z <= point.z <= self.max.z
    }

    /// One of the six faces of the box, as a box of no thickness: the faces of
    /// least and greatest `z`, then of `y`, then of `x`.
    pub open spec fn face(self, i: int) -> Bounds {
        if i == 0 {
            Bounds { min: self.min, max: Vector3 { x: self.max.x, y: self.max.y, z: self.min.z } }
        } else if i == 1 {
            Bounds { min: Vector3 { x: self.min.x, y: self.min.y, z: self.max.z }, max: self.max }
        } else if i == 2 {
            Bounds { min: self.min, max: Vector3 { x: self.max.x, y: self.min.y, z: self.max.z } }
        } else if i == 3 {
            Bounds { min: Vector3 { x: self.min.x, y: self.max.y, z: self.min.z }, max: self.max }
        } else if i == 4 {
            Bounds { min: self.min, max: Vector3 { x: self.min.x, y: self.max.y, z: self.max.z } }
        } else {
            Bounds { min: Vector3 { x: self.max.x, y: self.min.y, z: self.min.z }, max: self.max }
        }
    }

    /// The six faces of the box, in the order of [`Bounds::face`].
    pub open spec fn faces(self) -> Seq<Bounds> {
        Seq::new(6, |i: int| self.face(i))
    }

    /// Whether `other` overlaps one of the faces of `self`, that is, whether it
    /// crosses the shell of `self`.
    pub open spec fn crosses_shell(self, other: Bounds) -> bool {
        exists|i: int| 0 <= i < 6 && #[trigger] self.face(i).overlaps(other)
    }

    /// The centre of the box, each coordinate rounded towards negative infinity.
    pub open spec fn centre(self) -> Vector3 {
        Vector3 {
            x: mid(self.min.x as int, self.max.x as int) as i64,
            y: mid(self.min.y as int, self.max.y as int) as i64,
            z: mid(self.min.z as int, self.max.z as int) as i64,
        }
    }

    /// Whether [`Bounds::to_power_of_two`] can be taken of this box: whether it
    /// is longer than one unit along every axis and the widened box has
    /// corners on the lattice.
    pub open spec fn can_widen(self) -> bool {
        &&& can_widen(self.min.x as int, self.max.x as int)
        &&& can_widen(self.min.y as int, self.max.y as int)
        &&& can_widen(self.min.z as int, self.max.z as int)
    }

    /// The box with the centre of `self` whose length along each axis is the
    /// least power of two strictly greater than the length of `self`.
    pub open spec fn widened(self) -> Bounds {
        Bounds {
            min: Vector3 {
                x: widened(self.min.x as int, self.max.x as int).0 as i64,
                y: widened(self.min.y as int, self.max.y as int).0 as i64,
                z: widened(self.min.z as int, self.max.z as int).0 as i64,
            },
            max: Vector3 {
                x: widened(self.min.x as int, self.max.x as int).1 as i64,
                y: widened(self.min.y as int, self.max.y as int).1 as i64,
                z: widened(self.min.z as int, self.max.z as int).1 as i64,
            },
        }
    }

    /// The box with the given corners. The corners are taken as they are.
    pub fn new(min: Vector3, max: Vector3) -> (b: Self)
        ensures
            b == (Bounds { min, max }),
    {
        Self { min, max }
    }

    /// The box that is the single point at the origin.
    pub fn empty() -> (b: Self)
        ensures
            b.min == (Vector3 { x: 0, y: 0, z: 0 }),
            b.max == (Vector3 { x: 0, y: 0, z: 0 }),
    {
        Self { min: Vector3::zero(), max: Vector3::zero() }
    }

    /// The smallest box that encloses both `self` and `other`.
    pub fn join(&self, other: &Bounds) -> (b: Bounds)
        ensures
            b == self.hull(*other),
    {
        let min = Vector3::new(
            lesser(self.min.x, other.min.x),
            lesser(self.min.y, other.min.y),
            lesser(self.min.z, other.min.z),
        );
        let max = Vector3::new(
            greater(self.max.x, other.max.x),
            greater(self.max.y, other.max.y),
            greater(self.max.z, other.max.z),
        );
        Bounds::new(min, max)
    }

    /// Whether the two boxes share a region of positive volume. Boxes that only
    /// touch, in a face, an edge or a corner, do not.
    pub fn contains(&self, other: &Bounds) -> (b: bool)
        ensures
            b == self.overlaps(*other),
    {
        self.min.x < other.max.x && self.max.x > other.min.x && self.min.y < other.max.y
            && self.max.y > other.min.y && self.min.z < other.max.z && self.max.z > other.min.z
    }

    /// The six faces of the box, each a box of no thickness.
    pub fn planes(&self) -> (planes: Vec<Bounds>)
        ensures
            planes@ == self.faces(),
    {
        let mut planes: Vec<Bounds> = Vec::new();

        // Bottom and top
        planes.push(Bounds::new(self.min, Vector3::new(self.max.x, self.max.y, self.min.z)));
        planes.push(Bounds::new(Vector3::new(self.min.x, self.min.y, self.max.z), self.max));

        // Front and back
        planes.push(Bounds::new(self.min, Vector3::new(self.max.x, self.min.y, self.max.z)));
        planes.push(Bounds::new(Vector3::new(self.min.x, self.max.y, self.min.z), self.max));

        // Left and right
        planes.push(Bounds::new(self.min, Vector3::new(self.min.x, self.max.y, self.max.z)));
        planes.push(Bounds::new(Vector3::new(self.max.x, self.min.y, self.min.z), self.max));

        assert(planes@ =~= self.faces());
        planes
    }

    /// Whether `other` crosses the shell of `self`: whether it overlaps one of
    /// the six faces.
    pub fn collides_with(&self, other: &Bounds) -> (b: bool)
        ensures
            b == self.crosses_shell(*other),
    {
        let planes = self.planes();
        let mut i: usize = 0;
        while i < 6
            invariant
                i <= 6,
                planes@ == self.faces(),
                forall|j: int| 0 <= j < i ==> !#[trigger] self.face(j).overlaps(*other),
            decreases 6 - i,
        {
            if planes[i].contains(other) {
                assert(self.face(i as int).overlaps(*other));
                return true;
            }
            i += 1;
        }
        false
    }

    /// Whether `point` lies in the box, faces included.
    pub fn contains_point(&self, point: &Vector3) -> (b: bool)
        ensures
            b == self.holds_point(*point),
    {
        self.min.x <= point.x && point.x <= self.max.x && self.min.y <= point.y
            && point.y <= self.max.y && self.min.z <= point.z && point.z <= self.max.z
    }

    /// The centre of the box, each coordinate rounded towards negative infinity.
    pub fn midpoint(&self) -> (m: Vector3)
        ensures
            m == self.centre(),
    {
        Vector3::new(
            halfway(self.min.x, self.max.x),
            halfway(self.min.y, self.max.y),
            halfway(self.min.z, self.max.z),
        )
    }

    /// The extent of the box along each axis.
    pub fn dimensions(&self) -> (d: Vector3)
        requires
            Vector3::representable(self.max.minus(self.min)),
        ensures
            d.x == self.max.x - self.min.x,
            d.y == self.max.y - self.min.y,
            d.z == self.max.z - self.min.z,
    {
        self.max - self.min
    }

    /// Whether [`Bounds::to_power_of_two`] can be taken of this box.
    pub fn is_widenable(&self) -> (can: bool)
        ensures
            can == self.can_widen(),
    {
        widens(self.min.x, self.max.x) && widens(self.min.y, self.max.y) && widens(
            self.min.z,
            self.max.z,
        )
    }

    /// The box around the same centre whose length along each axis is the
    /// least power of two strictly greater than the length of `self`.
    ///
    /// The box must be longer than one unit along every axis.
    pub fn to_power_of_two(&self) -> (b: Bounds)
        requires
            self.can_widen(),
        ensures
            b == self.widened(),
    {
        let x = widen(self.min.x, self.max.x);
        let y = widen(self.min.y, self.max.y);
        let z = widen(self.min.z, self.max.z);
        Bounds::new(Vector3::new(x.0, y.0, z.0), Vector3::new(x.1, y.1, z.1))
    }
}

/// The smallest box that encloses every box of the list: the box itself for a
/// list of one, and the box that is the single point at the origin where the
/// list is empty.
pub open spec fn enclosing(boxes: Seq<Bounds>) -> Bounds
    decreases boxes.len(),
{
    if boxes.len() == 0 {
        Bounds { min: Vector3 { x: 0, y: 0, z: 0 }, max: Vector3 { x: 0, y: 0, z: 0 } }
    } else if boxes.len() == 1 {
        boxes[0]
    } else {
        enclosing(boxes.drop_last()).hull(boxes.last())
    }
}

impl<'a> From<&'a Vec<Bounds>> for Bounds {
    /// The smallest box that encloses every box of the list, or the box that
    /// is the single point at the origin where the list is empty.
    fn from(value: &'a Vec<Bounds>) -> (bounds: Bounds) {
        if value.len() == 0 {
            return Bounds::empty();
        }
        let mut bounds = value[0];
        let mut i: usize = 1;
        while i < value.len()
            invariant
                1 <= i <= value.len(),
                bounds == enclosing(value@.take(i as int)),
            decreases value.len() - i,
        {
            assert(value@.take(i + 1).drop_last() =~= value@.take(i as int));
            bounds = bounds.join(&value[i]);
            i += 1;
        }
        assert(value@.take(i as int) =~= value@);
        bounds
    }
}

impl<'a> vstd::std_specs::convert::FromSpecImpl<&'a Vec<Bounds>> for Bounds {
    open spec fn obeys_from_spec() -> bool {
        true
    }

    open spec fn from_spec(value: &'a Vec<Bounds>) -> Bounds {
        enclosing(value@)
    }
}

/// A point that lies in one of two boxes lies in the smallest box that
/// encloses both.
pub proof fn lemma_hull_holds_points(a: Bounds, b: Bounds, point: Vector3)
    requires
        a.holds_point(point) || b.holds_point(point),
    ensures
        a.hull(b).holds_point(point),
{
}

/// Whether two boxes overlap does not depend on which of them is asked.
pub proof fn lemma_overlap_symmetric(a: Bounds, b: Bounds)
    ensures
        a.overlaps(b) == b.overlaps(a),
{
}

/// Two boxes of which one ends, along some axis, where the other begins do
/// not overlap, however much they share along the other axes.
pub proof fn lemma_touching_boxes_do_not_overlap(a: Bounds, b: Bounds)
    requires
        a.max.x == b.min.x || a.max.y == b.min.y || a.max.z == b.min.z || b.max.x == a.min.x
            || b.max.y == a.min.y || b.max.z == a.min.z,
    ensures
        !a.overlaps(b),
        !b.overlaps(a),
{
}

/// What crosses the shell of a well-formed box overlaps the box.
pub proof fn lemma_shell_is_part_of_box(a: Bounds, b: Bounds)
    requires
        a.well_formed(),
        a.crosses_shell(b),
    ensures
        a.overlaps(b),
{
    let i = choose|i: int| 0 <= i < 6 && #[trigger] a.face(i).overlaps(b);
    assert(a.face(i).overlaps(b));
}

/// A box overlaps nothing that a box around it does not overlap.
pub proof fn lemma_overlap_grows_with_box(inner: Bounds, outer: Bounds, other: Bounds)
    requires
        outer.encloses(inner),
        inner.overlaps(other),
    ensures
        outer.overlaps(other),
{
}

/// The widened box has the centre of the box it was made from, encloses it,
/// and its length along each axis is the least power of two strictly greater
/// than the length of that box.
pub proof fn lemma_widened(b: Bounds)
    requires
        b.can_widen(),
    ensures
        b.widened().centre() == b.centre(),
        b.widened().encloses(b),
        b.widened().max.x - b.widened().min.x == power_of_two_above(b.max.x - b.min.x),
        b.widened().max.y - b.widened().min.y == power_of_two_above(b.max.y - b.min.y),
        b.widened().max.z - b.widened().min.z == power_of_two_above(b.max.z - b.min.z),
{
    lemma_widened_interval(b.min.x as int, b.max.x as int);
    lemma_widened_interval(b.min.y as int, b.max.y as int);
    lemma_widened_interval(b.min.z as int, b.max.z as int);
}

/// The law of [`lemma_widened`] along one axis.
proof fn lemma_widened_interval(lo: int, hi: int)
    requires
        hi - lo > 1,
    ensures
        widened(lo, hi).0 <= lo,
        hi <= widened(lo, hi).1,
        widened(lo, hi).1 - widened(lo, hi).0 == power_of_two_above(hi - lo),
        mid(widened(lo, hi).0, widened(lo, hi).1) == mid(lo, hi),
{
    lemma_power_of_two_above(hi - lo);
    let p = power_of_two_above(hi - lo);
    assert(p % 2 == 0);
}

/// The box that encloses a list of boxes encloses each box of the list.
pub proof fn lemma_enclosing_holds_all(boxes: Seq<Bounds>, i: int)
    requires
        0 <= i < boxes.len(),
    ensures
        enclosing(boxes).encloses(boxes[i]),
    decreases boxes.len(),
{
    if boxes.len() > 1 && i < boxes.len() - 1 {
        lemma_enclosing_holds_all(boxes.drop_last(), i);
    }
}

/// The box that encloses a list of well-formed boxes is well formed, and it is
/// the least such box: every box that encloses each box of the list encloses
/// it too.
pub proof fn lemma_enclosing_is_least(boxes: Seq<Bounds>, around: Bounds)
    requires
        boxes.len() > 0,
        forall|i: int| 0 <= i < boxes.len() ==> (#[trigger] boxes[i]).well_formed(),
        forall|i: int| 0 <= i < boxes.len() ==> around.encloses(#[trigger] boxes[i]),
    ensures
        enclosing(boxes).well_formed(),
        around.encloses(enclosing(boxes)),
    decreases boxes.len(),
{
    if boxes.len() > 1 {
        let rest = boxes.drop_last();
        assert forall|i: int| 0 <= i < rest.len() implies (#[trigger] rest[i]).well_formed()
            && around.encloses(rest[i]) by {
            assert(rest[i] == boxes[i]);
        }
        lemma_enclosing_is_least(rest, around);
        assert(boxes.last() == boxes[boxes.len() - 1]);
    }
}

} // verus!
