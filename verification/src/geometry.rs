//! Points, vectors and axis-aligned boxes on the integer grid.

use vstd::prelude::*;

verus! {

/// The largest magnitude of a coordinate that the boxes of this library hold.
pub const COORD_MAX: i64 = 0x4000_0000;

/// The largest area of the faces of a box within the coordinate range: six
/// squares with a side of `2 * COORD_MAX`.
pub const AREA_MAX: u128 = 27670116110564327424;

/// The smallest coordinate: the negative of `COORD_MAX`.
pub const COORD_MIN: i64 = -0x4000_0000;

/// One of the three coordinate axes.
#[derive(Clone, Copy, Debug, PartialEq, Eq, Structural)]
pub enum Axis {
    X,
    Y,
    Z,
}

impl Axis {
    /// The axis's number: 0, 1 or 2.
    pub open spec fn index(self) -> int {
        match self {
            Axis::X => 0,
            Axis::Y => 1,
            Axis::Z => 2,
        }
    }

    /// The axis as the byte that a flattened node stores.
    pub fn to_u8(self) -> (r: u8)
        ensures
            r == self.index(),
    {
        match self {
            Axis::X => 0,
            Axis::Y => 1,
            Axis::Z => 2,
        }
    }

    /// What `from_u8` gives for a byte: bytes above 2 stand for `Z`.
    pub open spec fn of_byte(b: u8) -> Axis {
        if b == 0 {
            Axis::X
        } else if b == 1 {
            Axis::Y
        } else {
            Axis::Z
        }
    }

    /// The axis that a stored byte stands for.
    pub fn from_u8(b: u8) -> (r: Axis)
        ensures
            r == Self::of_byte(b),
    {
        if b == 0 {
            Axis::X
        } else if b == 1 {
            Axis::Y
        } else {
            Axis::Z
        }
    }
}

impl Default for Axis {
    fn default() -> (r: Axis)
        ensures
            r == Axis::X,
    {
        Axis::X
    }
}

/// Whether `c` lies within the coordinate range.
pub open spec fn coord_in_range(c: i64) -> bool {
    COORD_MIN <= c <= COORD_MAX
}

/// A point.
#[derive(Clone, Copy, Debug, PartialEq, Eq, Structural)]
pub struct Point3i {
    pub x: i64,
    pub y: i64,
    pub z: i64,
}

impl Point3i {
    /// The coordinate along `axis`.
    pub open spec fn get(self, axis: Axis) -> i64 {
        match axis {
            Axis::X => self.x,
            Axis::Y => self.y,
            Axis::Z => self.z,
        }
    }

    /// All three coordinates lie within the coordinate range.
    pub open spec fn in_range(self) -> bool {
        coord_in_range(self.x) && coord_in_range(self.y) && coord_in_range(self.z)
    }

    /// The point with the coordinates `x`, `y` and `z`.
    pub fn new(x: i64, y: i64, z: i64) -> (p: Point3i)
        ensures
            p == (Point3i { x, y, z }),
    {
        Point3i { x, y, z }
    }

    /// The coordinate along `axis`.
    pub fn coord(&self, axis: Axis) -> (c: i64)
        ensures
            c == self.get(axis),
    {
        match axis {
            Axis::X => self.x,
            Axis::Y => self.y,
            Axis::Z => self.z,
        }
    }
}

/// A direction or displacement.
#[derive(Clone, Copy, Debug, PartialEq, Eq, Structural)]
pub struct Vector3i {
    pub x: i64,
    pub y: i64,
    pub z: i64,
}

impl Vector3i {
    /// The component along `axis`.
    pub open spec fn get(self, axis: Axis) -> i64 {
        match axis {
            Axis::X => self.x,
            Axis::Y => self.y,
            Axis::Z => self.z,
        }
    }

    /// The vector with the components `x`, `y` and `z`.
    pub fn new(x: i64, y: i64, z: i64) -> (v: Vector3i)
        ensures
            v == (Vector3i { x, y, z }),
    {
        Vector3i { x, y, z }
    }

    /// The component along `axis`.
    pub fn coord(&self, axis: Axis) -> (c: i64)
        ensures
            c == self.get(axis),
    {
        match axis {
            Axis::X => self.x,
            Axis::Y => self.y,
            Axis::Z => self.z,
        }
    }
}

/// A surface normal.
#[derive(Clone, Copy, Debug, PartialEq, Eq, Structural)]
pub struct Normal3i {
    pub x: i64,
    pub y: i64,
    pub z: i64,
}

impl Normal3i {
    /// The normal with the components `x`, `y` and `z`.
    pub fn new(x: i64, y: i64, z: i64) -> (n: Normal3i)
        ensures
            n == (Normal3i { x, y, z }),
    {
        Normal3i { x, y, z }
    }

    /// The normal with all components zero.
    pub fn zero() -> (n: Normal3i)
        ensures
            n == (Normal3i { x: 0, y: 0, z: 0 }),
    {
        Normal3i { x: 0, y: 0, z: 0 }
    }
}

/// The smaller of two numbers.
pub open spec fn min_i64(a: i64, b: i64) -> i64 {
    if a <= b {
        a
    } else {
        b
    }
}

/// The larger of two numbers.
pub open spec fn max_i64(a: i64, b: i64) -> i64 {
    if a >= b {
        a
    } else {
        b
    }
}

/// The smaller of two numbers.
fn exec_min(a: i64, b: i64) -> (r: i64)
    ensures
        r == min_i64(a, b),
{
    if a <= b {
        a
    } else {
        b
    }
}

/// The larger of two numbers.
fn exec_max(a: i64, b: i64) -> (r: i64)
    ensures
        r == max_i64(a, b),
{
    if a >= b {
        a
    } else {
        b
    }
}

/// An axis-aligned box, given by its two extreme corners.
///
/// A box whose minimum exceeds its maximum along some axis holds no point.
/// `Bounds3i::empty()` is the canonical such box: it is the identity of
/// `union`.
#[derive(Clone, Copy, Debug, PartialEq, Eq, Structural)]
pub struct Bounds3i {
    pub p_min: Point3i,
    pub p_max: Point3i,
}

impl Bounds3i {
    /// Both corners lie within the coordinate range.
    pub open spec fn in_range(self) -> bool {
        self.p_min.in_range() && self.p_max.in_range()
    }

    /// Every corner coordinate has a magnitude of at most `m`.
    pub open spec fn within(self, m: i64) -> bool {
        &&& -m <= self.p_min.x <= m
        &&& -m <= self.p_min.y <= m
        &&& -m <= self.p_min.z <= m
        &&& -m <= self.p_max.x <= m
        &&& -m <= self.p_max.y <= m
        &&& -m <= self.p_max.z <= m
    }

    /// The canonical box without points.
    pub open spec fn empty_spec() -> Bounds3i {
        Bounds3i {
            p_min: Point3i { x: COORD_MAX, y: COORD_MAX, z: COORD_MAX },
            p_max: Point3i { x: COORD_MIN, y: COORD_MIN, z: COORD_MIN },
        }
    }

    /// The box holds no point.
    pub open spec fn is_empty(self) -> bool {
        self.p_min.x > self.p_max.x || self.p_min.y > self.p_max.y || self.p_min.z > self.p_max.z
    }

    /// The smallest box that holds both `self` and `other`.
    pub open spec fn union_spec(self, other: Bounds3i) -> Bounds3i {
        Bounds3i {
            p_min: Point3i {
                x: min_i64(self.p_min.x, other.p_min.x),
                y: min_i64(self.p_min.y, other.p_min.y),
                z: min_i64(self.p_min.z, other.p_min.z),
            },
            p_max: Point3i {
                x: max_i64(self.p_max.x, other.p_max.x),
                y: max_i64(self.p_max.y, other.p_max.y),
                z: max_i64(self.p_max.z, other.p_max.z),
            },
        }
    }

    /// The box that holds the single point `p`.
    pub open spec fn of_point(p: Point3i) -> Bounds3i {
        Bounds3i { p_min: p, p_max: p }
    }

    /// `inner` lies within `self`, corner by corner.
    pub open spec fn encloses(self, inner: Bounds3i) -> bool {
        &&& self.p_min.x <= inner.p_min.x
        &&& self.p_min.y <= inner.p_min.y
        &&& self.p_min.z <= inner.p_min.z
        &&& inner.p_max.x <= self.p_max.x
        &&& inner.p_max.y <= self.p_max.y
        &&& inner.p_max.z <= self.p_max.z
    }

    /// The union of all boxes of `s`, taken from left to right; the empty box
    /// for an empty sequence.
    pub open spec fn union_of(s: Seq<Bounds3i>) -> Bounds3i
        decreases s.len(),
    {
        if s.len() == 0 {
            Self::empty_spec()
        } else {
            Self::union_of(s.drop_last()).union_spec(s.last())
        }
    }

    /// The extent of the box along `axis`; negative for some axis of a box
    /// without points.
    pub open spec fn extent(self, axis: Axis) -> int {
        self.p_max.get(axis) - self.p_min.get(axis)
    }

    /// The axis along which the box is longest; of equal extents the first
    /// of `X`, `Y`, `Z` wins.
    pub open spec fn maximum_extent_spec(self) -> Axis {
        let dx = self.extent(Axis::X);
        let dy = self.extent(Axis::Y);
        let dz = self.extent(Axis::Z);
        if dx >= dy && dx >= dz {
            Axis::X
        } else if dy >= dz {
            Axis::Y
        } else {
            Axis::Z
        }
    }

    /// The area of the box's six faces; zero for a box without points.
    pub open spec fn surface_area_spec(self) -> int {
        if self.is_empty() {
            0
        } else {
            let dx = self.extent(Axis::X);
            let dy = self.extent(Axis::Y);
            let dz = self.extent(Axis::Z);
            2 * (dx * dy + dx * dz + dy * dz)
        }
    }

    /// The box with the corners `p_min` and `p_max`.
    pub fn new(p_min: Point3i, p_max: Point3i) -> (b: Bounds3i)
        ensures
            b == (Bounds3i { p_min, p_max }),
    {
        Bounds3i { p_min, p_max }
    }

    /// The canonical box without points.
    pub fn empty() -> (b: Bounds3i)
        ensures
            b == Self::empty_spec(),
            b.in_range(),
            b.is_empty(),
    {
        Bounds3i {
            p_min: Point3i { x: COORD_MAX, y: COORD_MAX, z: COORD_MAX },
            p_max: Point3i { x: COORD_MIN, y: COORD_MIN, z: COORD_MIN },
        }
    }

    /// Whether both corners lie within the coordinate range.
    pub fn is_in_range(&self) -> (b: bool)
        ensures
            b == self.in_range(),
    {
        COORD_MIN <= self.p_min.x && self.p_min.x <= COORD_MAX && COORD_MIN <= self.p_min.y
            && self.p_min.y <= COORD_MAX && COORD_MIN <= self.p_min.z && self.p_min.z <= COORD_MAX
            && COORD_MIN <= self.p_max.x && self.p_max.x <= COORD_MAX && COORD_MIN <= self.p_max.y
            && self.p_max.y <= COORD_MAX && COORD_MIN <= self.p_max.z && self.p_max.z <= COORD_MAX
    }

    /// The smallest box that holds both `self` and `other`.
    pub fn union(&self, other: &Bounds3i) -> (b: Bounds3i)
        ensures
            b == self.union_spec(*other),
    {
        Bounds3i {
            p_min: Point3i {
                x: exec_min(self.p_min.x, other.p_min.x),
                y: exec_min(self.p_min.y, other.p_min.y),
                z: exec_min(self.p_min.z, other.p_min.z),
            },
            p_max: Point3i {
                x: exec_max(self.p_max.x, other.p_max.x),
                y: exec_max(self.p_max.y, other.p_max.y),
                z: exec_max(self.p_max.z, other.p_max.z),
            },
        }
    }

    /// The smallest box that holds both `self` and the point `p`.
    pub fn union_point(&self, p: &Point3i) -> (b: Bounds3i)
        ensures
            b == self.union_spec(Self::of_point(*p)),
    {
        let other = Bounds3i { p_min: *p, p_max: *p };
        self.union(&other)
    }

    /// The vector from the minimum corner to the maximum corner.
    pub fn diagonal(&self) -> (d: Vector3i)
        requires
            self.within(0x2000_0000_0000_0000),
        ensures
            d.x == self.extent(Axis::X),
            d.y == self.extent(Axis::Y),
            d.z == self.extent(Axis::Z),
    {
        Vector3i {
            x: self.p_max.x - self.p_min.x,
            y: self.p_max.y - self.p_min.y,
            z: self.p_max.z - self.p_min.z,
        }
    }

    /// The axis along which the box is longest.
    pub fn maximum_extent(&self) -> (axis: Axis)
        requires
            self.within(0x2000_0000_0000_0000),
        ensures
            axis == self.maximum_extent_spec(),
    {
        let d = self.diagonal();
        if d.x >= d.y && d.x >= d.z {
            Axis::X
        } else if d.y >= d.z {
            Axis::Y
        } else {
            Axis::Z
        }
    }

    /// The area of the box's six faces; zero for a box without points.
    pub fn surface_area(&self) -> (a: u128)
        requires
            self.in_range(),
        ensures
            a == self.surface_area_spec(),
            a <= AREA_MAX,
    {
        if self.p_min.x > self.p_max.x || self.p_min.y > self.p_max.y || self.p_min.z
            > self.p_max.z {
            return 0;
        }
        let dx: u128 = (self.p_max.x - self.p_min.x) as u128;
        let dy: u128 = (self.p_max.y - self.p_min.y) as u128;
        let dz: u128 = (self.p_max.z - self.p_min.z) as u128;
        proof {
            lemma_product_bound(dx as int, dy as int, 2 * COORD_MAX);
            lemma_product_bound(dx as int, dz as int, 2 * COORD_MAX);
            lemma_product_bound(dy as int, dz as int, 2 * COORD_MAX);
        }
        2 * (dx * dy + dx * dz + dy * dz)
    }
}

/// The product of two numbers between zero and `m` lies between zero and
/// `m * m`.
pub proof fn lemma_product_bound(a: int, b: int, m: int)
    by (nonlinear_arith)
    requires
        0 <= a <= m,
        0 <= b <= m,
    ensures
        0 <= a * b <= m * m,
{
}

/// The product of a number between zero and `ma` with one between zero and
/// `mb` lies between zero and `ma * mb`.
pub proof fn lemma_product_bound2(a: int, b: int, ma: int, mb: int)
    by (nonlinear_arith)
    requires
        0 <= a <= ma,
        0 <= b <= mb,
    ensures
        0 <= a * b <= ma * mb,
{
}

/// The union of a sequence of boxes encloses each of them and stays within the
/// coordinate range when they do.
pub proof fn lemma_union_of_encloses(s: Seq<Bounds3i>, i: int)
    requires
        0 <= i < s.len(),
    ensures
        Bounds3i::union_of(s).encloses(s[i]),
    decreases s.len(),
{
    if i < s.len() - 1 {
        lemma_union_of_encloses(s.drop_last(), i);
    }
}

/// The union of boxes within the coordinate range is within it.
pub proof fn lemma_union_of_in_range(s: Seq<Bounds3i>)
    requires
        forall|i: int| 0 <= i < s.len() ==> (#[trigger] s[i]).in_range(),
    ensures
        Bounds3i::union_of(s).in_range(),
    decreases s.len(),
{
    if s.len() > 0 {
        lemma_union_of_in_range(s.drop_last());
    }
}

/// A box that encloses every box of `s` and the canonical empty box encloses
/// their union.
pub proof fn lemma_union_of_least(s: Seq<Bounds3i>, c: Bounds3i)
    requires
        forall|i: int| 0 <= i < s.len() ==> c.encloses(#[trigger] s[i]),
        c.encloses(Bounds3i::empty_spec()),
    ensures
        c.encloses(Bounds3i::union_of(s)),
    decreases s.len(),
{
    if s.len() > 0 {
        lemma_union_of_least(s.drop_last(), c);
    }
}

/// Every box of `s` stands somewhere in `t`.
pub open spec fn boxes_among(s: Seq<Bounds3i>, t: Seq<Bounds3i>) -> bool {
    forall|i: int| 0 <= i < s.len() ==> t.contains(#[trigger] s[i])
}

/// Two sequences of boxes within the coordinate range that hold the same boxes,
/// in whatever order, have the same union.
pub proof fn lemma_union_of_same_boxes(s: Seq<Bounds3i>, t: Seq<Bounds3i>)
    requires
        forall|i: int| 0 <= i < s.len() ==> (#[trigger] s[i]).in_range(),
        forall|i: int| 0 <= i < t.len() ==> (#[trigger] t[i]).in_range(),
        boxes_among(s, t),
        boxes_among(t, s),
    ensures
        Bounds3i::union_of(s) == Bounds3i::union_of(t),
{
    let us = Bounds3i::union_of(s);
    let ut = Bounds3i::union_of(t);
    if s.len() == 0 {
        if t.len() > 0 {
            assert(s.contains(t[0]));
        }
    } else if t.len() == 0 {
        assert(t.contains(s[0]));
    } else {
        assert forall|i: int| 0 <= i < s.len() implies ut.encloses(#[trigger] s[i]) by {
            assert(t.contains(s[i]));
            let j = choose|j: int| 0 <= j < t.len() && t[j] == s[i];
            lemma_union_of_encloses(t, j);
        }
        assert forall|i: int| 0 <= i < t.len() implies us.encloses(#[trigger] t[i]) by {
            assert(s.contains(t[i]));
            let j = choose|j: int| 0 <= j < s.len() && s[j] == t[i];
            lemma_union_of_encloses(s, j);
        }
        assert(ut.encloses(s[0]) && s[0].in_range());
        assert(us.encloses(t[0]) && t[0].in_range());
        lemma_union_of_least(s, ut);
        lemma_union_of_least(t, us);
    }
}

/// The union of `s` followed by `t` is the union of their unions.
pub proof fn lemma_union_of_concat(s: Seq<Bounds3i>, t: Seq<Bounds3i>)
    requires
        forall|i: int| 0 <= i < s.len() ==> (#[trigger] s[i]).in_range(),
    ensures
        Bounds3i::union_of(s + t) == Bounds3i::union_of(s).union_spec(Bounds3i::union_of(t)),
    decreases t.len(),
{
    if t.len() == 0 {
        assert(s + t =~= s);
        lemma_union_of_in_range(s);
    } else {
        assert((s + t).drop_last() =~= s + t.drop_last());
        assert((s + t).last() == t.last());
        lemma_union_of_concat(s, t.drop_last());
    }
}

} // verus!
