//! An axis-aligned box as a primitive.

use vstd::prelude::*;
use crate::geometry::{coord_in_range, Axis, Bounds3i, Normal3i, Point3i, Vector3i};
use crate::interaction::{Hit, Material, SurfaceInteraction};
use crate::medium::MediumInterface;
use crate::primitive::Primitive;
use crate::ray::{
    lemma_le_total,
    lemma_le_transitive,
    lemma_product_range,
    lemma_scaled_order,
    ray_component,
    slab,
    slab_enter,
    slab_exit,
    slab_holds,
    Ray,
    RayParam,
};

verus! {

/// The later of two parameters; of equal ones the second.
pub open spec fn later(a: RayParam, b: RayParam) -> RayParam {
    if a.le(b) {
        b
    } else {
        a
    }
}

/// The earlier of two parameters; of equal ones the first.
pub open spec fn earlier(a: RayParam, b: RayParam) -> RayParam {
    if a.le(b) {
        a
    } else {
        b
    }
}

/// The later of two parameters.
fn exec_later(a: RayParam, b: RayParam) -> (r: RayParam)
    ensures
        r == later(a, b),
{
    if a.is_le(&b) {
        b
    } else {
        a
    }
}

/// The earlier of two parameters.
fn exec_earlier(a: RayParam, b: RayParam) -> (r: RayParam)
    ensures
        r == earlier(a, b),
{
    if a.is_le(&b) {
        a
    } else {
        b
    }
}

/// `a / b` rounded down, for a positive `b`.
pub open spec fn floor_ratio(a: int, b: int) -> int {
    if a >= 0 {
        a / b
    } else {
        -((-a + b - 1) / b)
    }
}

/// `c` brought into the stretch from `lo` to `hi`.
pub open spec fn clamp_spec(c: int, lo: int, hi: int) -> int {
    if c < lo {
        lo
    } else if c > hi {
        hi
    } else {
        c
    }
}

/// The coordinate of the ray's point at parameter `t`, rounded down to the
/// grid and kept between `lo` and `hi`.
pub open spec fn point_coord(o: i64, d: i64, t: RayParam, lo: i64, hi: i64) -> int {
    clamp_spec(o + floor_ratio(t.num * d, t.den as int), lo as int, hi as int)
}

/// The coordinate of the ray's point at parameter `t`, rounded down to the
/// grid and kept between `lo` and `hi`.
fn exec_point_coord(o: i64, d: i64, t: &RayParam, lo: i64, hi: i64) -> (c: i64)
    requires
        ray_component(o),
        ray_component(d),
        t.den > 0,
        lo <= hi,
    ensures
        c == point_coord(o, d, *t, lo, hi),
        lo <= c <= hi,
{
    proof {
        lemma_product_range(t.num as int, d as int, 0x8000_0000_0000_0000);
    }
    let prod: i128 = (t.num as i128) * (d as i128);
    let den: u128 = t.den as u128;
    let moved: i128 = if prod >= 0 {
        let q: u128 = (prod as u128) / den;
        proof {
            lemma_quotient_at_most(prod as int, den as int);
        }
        o as i128 + q as i128
    } else {
        let up: u128 = ((-prod) as u128) + den - 1;
        let q: u128 = up / den;
        proof {
            lemma_quotient_at_most(up as int, den as int);
        }
        o as i128 - q as i128
    };
    if moved < lo as i128 {
        lo
    } else if moved > hi as i128 {
        hi
    } else {
        moved as i64
    }
}

/// A number that is not negative, divided by a positive one, gives a number
/// that is not negative and not larger.
proof fn lemma_quotient_at_most(a: int, b: int)
    by (nonlinear_arith)
    requires
        a >= 0,
        b > 0,
    ensures
        0 <= a / b <= a,
{
}

/// Minus one, zero or one: the sign of `d` turned round.
pub open spec fn against(d: i64) -> i64 {
    if d > 0 {
        -1i64
    } else if d < 0 {
        1
    } else {
        0
    }
}

/// The sign of `d` turned round.
fn exec_against(d: i64) -> (r: i64)
    ensures
        r == against(d),
{
    if d > 0 {
        -1
    } else if d < 0 {
        1
    } else {
        0
    }
}

/// An axis-aligned box that rays hit on its faces.
///
/// A box with a corner outside the coordinate range counts as the canonical
/// empty box, which no ray hits.
#[derive(Clone, Copy, Debug, PartialEq, Eq, Structural)]
pub struct Cuboid {
    /// The box.
    pub extent: Bounds3i,
    /// The material of its faces.
    pub material: Option<Material>,
    /// The media inside and outside.
    pub medium_interface: Option<MediumInterface>,
}

impl Cuboid {
    /// The box that the primitive stands for.
    pub open spec fn shape(self) -> Bounds3i {
        if self.extent.in_range() {
            self.extent
        } else {
            Bounds3i::empty_spec()
        }
    }

    /// The parameter at which the line of the ray has entered all three slabs
    /// of the box.
    pub open spec fn entry(self, ray: Ray) -> RayParam {
        let b = self.shape();
        later(
            later(b.enter(ray.o, ray.d, Axis::X), b.enter(ray.o, ray.d, Axis::Y)),
            b.enter(ray.o, ray.d, Axis::Z),
        )
    }

    /// The parameter at which the line of the ray leaves the first of the
    /// three slabs of the box.
    pub open spec fn leave(self, ray: Ray) -> RayParam {
        let b = self.shape();
        earlier(
            earlier(b.exit(ray.o, ray.d, Axis::X), b.exit(ray.o, ray.d, Axis::Y)),
            b.exit(ray.o, ray.d, Axis::Z),
        )
    }

    /// The first positive parameter at which the line of the ray crosses a
    /// face of the box: where it enters the box, or, from an origin inside,
    /// where it leaves; none where the line misses the box or the box lies
    /// behind the origin.
    pub open spec fn crossing(self, ray: Ray) -> Option<RayParam> {
        let e = self.entry(ray);
        let l = self.leave(ray);
        if !e.le(l) {
            None
        } else if RayParam::zero_spec().lt(e) && e.is_finite() {
            Some(e)
        } else if RayParam::zero_spec().lt(l) && l.is_finite() {
            Some(l)
        } else {
            None
        }
    }

    /// The axis of the face that is crossed at `t`: the first axis whose slab
    /// is entered at `t`, or, where the box is left at `t`, the first whose
    /// slab is left then.
    pub open spec fn crossed_axis(self, ray: Ray, t: RayParam) -> Axis {
        let b = self.shape();
        if t == self.entry(ray) && RayParam::zero_spec().lt(t) {
            if b.enter(ray.o, ray.d, Axis::X) == t {
                Axis::X
            } else if b.enter(ray.o, ray.d, Axis::Y) == t {
                Axis::Y
            } else {
                Axis::Z
            }
        } else {
            if b.exit(ray.o, ray.d, Axis::X) == t {
                Axis::X
            } else if b.exit(ray.o, ray.d, Axis::Y) == t {
                Axis::Y
            } else {
                Axis::Z
            }
        }
    }

    /// What is known of the hit at the parameter `t`: the point there, rounded
    /// down to the grid and kept within the box, with an error bound of one
    /// step; the reversed direction; and a unit normal along the crossed axis
    /// that faces the ray.
    pub open spec fn record(self, ray: Ray, t: RayParam) -> SurfaceInteraction {
        let b = self.shape();
        let axis = self.crossed_axis(ray, t);
        SurfaceInteraction {
            hit: Hit {
                p: Point3i {
                    x: point_coord(ray.o.x, ray.d.x, t, b.p_min.x, b.p_max.x) as i64,
                    y: point_coord(ray.o.y, ray.d.y, t, b.p_min.y, b.p_max.y) as i64,
                    z: point_coord(ray.o.z, ray.d.z, t, b.p_min.z, b.p_max.z) as i64,
                },
                time: ray.time,
                p_error: Vector3i { x: 1, y: 1, z: 1 },
                wo: Vector3i { x: (-ray.d.x) as i64, y: (-ray.d.y) as i64, z: (-ray.d.z) as i64 },
                n: Normal3i {
                    x: if axis == Axis::X {
                        against(ray.d.x)
                    } else {
                        0
                    },
                    y: if axis == Axis::Y {
                        against(ray.d.y)
                    } else {
                        0
                    },
                    z: if axis == Axis::Z {
                        against(ray.d.z)
                    } else {
                        0
                    },
                },
                medium_interface: self.medium_interface,
            },
            t,
            material: self.material,
        }
    }

    /// The box `extent` with the given material and media.
    pub fn new(
        extent: Bounds3i,
        material: Option<Material>,
        medium_interface: Option<MediumInterface>,
    ) -> (c: Cuboid)
        ensures
            c == (Cuboid { extent, material, medium_interface }),
    {
        Cuboid { extent, material, medium_interface }
    }

    /// The box that the primitive stands for.
    fn exec_shape(&self) -> (b: Bounds3i)
        ensures
            b == self.shape(),
            b.in_range(),
    {
        if self.extent.is_in_range() {
            self.extent
        } else {
            Bounds3i::empty()
        }
    }

    /// The first positive parameter at which the line of the ray crosses a
    /// face of the box, and the axis of that face.
    fn cross(&self, ray: &Ray) -> (r: Option<(RayParam, Axis)>)
        requires
            ray.wf(),
        ensures
            match r {
                Some((t, axis)) => self.crossing(*ray) == Some(t) && axis == self.crossed_axis(
                    *ray,
                    t,
                ),
                None => self.crossing(*ray) is None,
            },
    {
        let b = self.exec_shape();
        let (ex, lx) = slab(b.p_min.x, b.p_max.x, ray.o.x, ray.d.x);
        let (ey, ly) = slab(b.p_min.y, b.p_max.y, ray.o.y, ray.d.y);
        let (ez, lz) = slab(b.p_min.z, b.p_max.z, ray.o.z, ray.d.z);
        let e = exec_later(exec_later(ex, ey), ez);
        let l = exec_earlier(exec_earlier(lx, ly), lz);
        let zero = RayParam::zero();
        if !e.is_le(&l) {
            None
        } else if zero.is_lt(&e) && e.den > 0 {
            let axis = if ex == e {
                Axis::X
            } else if ey == e {
                Axis::Y
            } else {
                Axis::Z
            };
            Some((e, axis))
        } else if zero.is_lt(&l) && l.den > 0 {
            let axis = if lx == l {
                Axis::X
            } else if ly == l {
                Axis::Y
            } else {
                Axis::Z
            };
            Some((l, axis))
        } else {
            None
        }
    }

    /// A hit's parameter lies between entry and leave of every slab, so the
    /// line's point there lies in the box.
    proof fn lemma_crossing_inside(self, ray: Ray)
        requires
            ray.wf(),
        ensures
            self.crossing(ray) matches Some(t) ==> t.wf() && t.is_finite()
                && RayParam::zero_spec().lt(t) && self.shape().holds_at(ray.o, ray.d, t)
                && !self.shape().is_empty(),
    {
        let b = self.shape();
        match self.crossing(ray) {
            Some(t) => {
                let e = self.entry(ray);
                let l = self.leave(ray);
                assert forall|a: Axis| #![auto]
                    b.enter(ray.o, ray.d, a).wf() && b.exit(ray.o, ray.d, a).wf() by {}
                let ex = b.enter(ray.o, ray.d, Axis::X);
                let ey = b.enter(ray.o, ray.d, Axis::Y);
                let ez = b.enter(ray.o, ray.d, Axis::Z);
                let lx = b.exit(ray.o, ray.d, Axis::X);
                let ly = b.exit(ray.o, ray.d, Axis::Y);
                let lz = b.exit(ray.o, ray.d, Axis::Z);
                lemma_le_total(ex, ey);
                lemma_le_total(later(ex, ey), ez);
                lemma_le_total(lx, ly);
                lemma_le_total(earlier(lx, ly), lz);
                lemma_le_total(ex, ex);
                lemma_le_total(ey, ey);
                lemma_le_total(ez, ez);
                lemma_le_total(lx, lx);
                lemma_le_total(ly, ly);
                lemma_le_total(lz, lz);
                // every entry is at most the last entry
                if later(ex, ey).le(ez) {
                    lemma_le_transitive(ex, later(ex, ey), ez);
                    lemma_le_transitive(ey, later(ex, ey), ez);
                }
                assert(ex.le(e) && ey.le(e) && ez.le(e));
                // the first leave is at most every leave
                if !earlier(lx, ly).le(lz) {
                    lemma_le_transitive(lz, earlier(lx, ly), lx);
                    lemma_le_transitive(lz, earlier(lx, ly), ly);
                }
                assert(l.le(lx) && l.le(ly) && l.le(lz));
                lemma_le_total(t, t);
                if t == e {
                    lemma_le_transitive(t, l, lx);
                    lemma_le_transitive(t, l, ly);
                    lemma_le_transitive(t, l, lz);
                } else {
                    lemma_le_transitive(ex, e, t);
                    lemma_le_transitive(ey, e, t);
                    lemma_le_transitive(ez, e, t);
                }
                lemma_between_holds(b.p_min.x, b.p_max.x, ray.o.x, ray.d.x, t);
                lemma_between_holds(b.p_min.y, b.p_max.y, ray.o.y, ray.d.y, t);
                lemma_between_holds(b.p_min.z, b.p_max.z, ray.o.z, ray.d.z, t);
            },
            None => {},
        }
    }
}

/// A line is inside a slab at every finite parameter between its entry and
/// its leave, and a slab that is entered and left is not empty.
pub proof fn lemma_between_holds(lo: i64, hi: i64, o: i64, d: i64, t: RayParam)
    requires
        coord_in_range(lo),
        coord_in_range(hi),
        ray_component(o),
        ray_component(d),
        t.den > 0,
        slab_enter(lo, hi, o, d).le(t),
        t.le(slab_exit(lo, hi, o, d)),
    ensures
        slab_holds(lo, hi, o, d, t),
        lo <= hi,
{
    let e = slab_enter(lo, hi, o, d);
    let l = slab_exit(lo, hi, o, d);
    if d > 0 {
        assert(lo * t.den <= o * t.den + t.num * d <= hi * t.den && lo <= hi)
            by (nonlinear_arith)
            requires
                e.num == lo - o,
                e.den == d,
                l.num == hi - o,
                l.den == d,
                d > 0,
                t.den > 0,
                e.num * t.den <= t.num * e.den,
                t.num * l.den <= l.num * t.den,
        ;
    } else if d < 0 {
        assert(lo * t.den <= o * t.den + t.num * d <= hi * t.den && lo <= hi)
            by (nonlinear_arith)
            requires
                e.num == o - hi,
                e.den == -d,
                l.num == o - lo,
                l.den == -d,
                d < 0,
                t.den > 0,
                e.num * t.den <= t.num * e.den,
                t.num * l.den <= l.num * t.den,
        ;
    } else {
        assert(e.den == 0 && l.den == 0);
        assert(t.num * 0 == 0);
        if !(lo <= o <= hi) {
            assert(e.num == 1);
            assert(1 * t.den == t.den);
        }
        lemma_scaled_order(lo as int, o as int, t.den as int);
        lemma_scaled_order(o as int, hi as int, t.den as int);
    }
}

impl Primitive for Cuboid {
    open spec fn bounds(&self) -> Bounds3i {
        self.shape()
    }

    open spec fn nearest(&self, ray: Ray) -> Option<SurfaceInteraction> {
        match self.crossing(ray) {
            Some(t) => Some(self.record(ray, t)),
            None => None,
        }
    }

    proof fn bounds_in_range(&self) {
    }

    proof fn nearest_is_bounded(&self, ray: Ray, t_max: RayParam) {
        self.lemma_crossing_inside(ray);
    }

    fn world_bound(&self) -> (b: Bounds3i) {
        self.exec_shape()
    }

    fn intersect(&self, ray: &Ray) -> (r: Option<SurfaceInteraction>) {
        proof {
            self.lemma_crossing_inside(*ray);
        }
        match self.cross(ray) {
            Some((t, axis)) => {
                if t.is_lt(&ray.t_max) {
                    let b = self.exec_shape();
                    let p = Point3i {
                        x: exec_point_coord(ray.o.x, ray.d.x, &t, b.p_min.x, b.p_max.x),
                        y: exec_point_coord(ray.o.y, ray.d.y, &t, b.p_min.y, b.p_max.y),
                        z: exec_point_coord(ray.o.z, ray.d.z, &t, b.p_min.z, b.p_max.z),
                    };
                    let n = match axis {
                        Axis::X => Normal3i { x: exec_against(ray.d.x), y: 0, z: 0 },
                        Axis::Y => Normal3i { x: 0, y: exec_against(ray.d.y), z: 0 },
                        Axis::Z => Normal3i { x: 0, y: 0, z: exec_against(ray.d.z) },
                    };
                    Some(
                        SurfaceInteraction {
                            hit: Hit {
                                p,
                                time: ray.time,
                                p_error: Vector3i { x: 1, y: 1, z: 1 },
                                wo: Vector3i { x: -ray.d.x, y: -ray.d.y, z: -ray.d.z },
                                n,
                                medium_interface: self.medium_interface,
                            },
                            t,
                            material: self.material,
                        },
                    )
                } else {
                    None
                }
            },
            None => None,
        }
    }

    fn intersect_p(&self, ray: &Ray) -> (b: bool) {
        match self.cross(ray) {
            Some((t, axis)) => t.is_lt(&ray.t_max),
            None => false,
        }
    }
}

} // verus!
