//! Rays, exact ray parameters, and the test of a ray against a box.

use vstd::prelude::*;
use crate::geometry::{Axis, Bounds3i, Point3i, Vector3i};
use crate::medium::Medium;

verus! {

/// The largest magnitude of a component of a ray's origin or direction.
pub const RAY_MAX: i64 = 0x100_0000_0000;

/// The smallest component of a ray's origin or direction.
pub const RAY_MIN: i64 = -0x100_0000_0000;

/// A parameter along a ray: the fraction `num / den`.
///
/// A zero denominator stands for an infinite parameter, positive with
/// numerator 1 and negative with numerator -1.
#[derive(Clone, Copy, Debug, PartialEq, Eq, Structural)]
pub struct RayParam {
    pub num: i64,
    pub den: i64,
}

impl RayParam {
    /// The denominator is not negative, and an infinite parameter has
    /// numerator 1 or -1.
    pub open spec fn wf(self) -> bool {
        self.den >= 0 && (self.den == 0 ==> (self.num == 1 || self.num == -1))
    }

    /// The parameter is a number.
    pub open spec fn is_finite(self) -> bool {
        self.den > 0
    }

    /// `self` is at most `other`, as fractions.
    pub open spec fn le(self, other: RayParam) -> bool {
        if self.den == 0 && other.den == 0 {
            self.num <= other.num
        } else {
            self.num * other.den <= other.num * self.den
        }
    }

    /// `self` is less than `other`, as fractions.
    pub open spec fn lt(self, other: RayParam) -> bool {
        !other.le(self)
    }

    /// The parameter zero.
    pub open spec fn zero_spec() -> RayParam {
        RayParam { num: 0, den: 1 }
    }

    /// The parameter beyond every number.
    pub open spec fn infinity_spec() -> RayParam {
        RayParam { num: 1, den: 0 }
    }

    /// The parameter before every number.
    pub open spec fn neg_infinity_spec() -> RayParam {
        RayParam { num: -1i64, den: 0 }
    }

    /// The fraction `num / den`.
    pub fn new(num: i64, den: i64) -> (t: RayParam)
        ensures
            t == (RayParam { num, den }),
    {
        RayParam { num, den }
    }

    /// The parameter zero.
    pub fn zero() -> (t: RayParam)
        ensures
            t == Self::zero_spec(),
            t.wf(),
    {
        RayParam { num: 0, den: 1 }
    }

    /// The parameter beyond every number.
    pub fn infinity() -> (t: RayParam)
        ensures
            t == Self::infinity_spec(),
            t.wf(),
    {
        RayParam { num: 1, den: 0 }
    }

    /// Whether `self` is at most `other`.
    pub fn is_le(&self, other: &RayParam) -> (b: bool)
        ensures
            b == self.le(*other),
    {
        if self.den == 0 && other.den == 0 {
            self.num <= other.num
        } else {
            proof {
                lemma_product_range(self.num as int, other.den as int, 0x8000_0000_0000_0000);
                lemma_product_range(other.num as int, self.den as int, 0x8000_0000_0000_0000);
            }
            let l: i128 = (self.num as i128) * (other.den as i128);
            let r: i128 = (other.num as i128) * (self.den as i128);
            l <= r
        }
    }

    /// Whether `self` is less than `other`.
    pub fn is_lt(&self, other: &RayParam) -> (b: bool)
        ensures
            b == self.lt(*other),
    {
        !other.is_le(self)
    }
}

/// The product of two numbers of magnitude at most `m` has magnitude at most
/// `m * m`.
pub proof fn lemma_product_range(a: int, b: int, m: int)
    by (nonlinear_arith)
    requires
        -m <= a <= m,
        -m <= b <= m,
    ensures
        -(m * m) <= a * b <= m * m,
{
}

/// The product of a number of magnitude at most `ma` with one of magnitude at
/// most `mb` has magnitude at most `ma * mb`.
pub proof fn lemma_product_range2(a: int, b: int, ma: int, mb: int)
    by (nonlinear_arith)
    requires
        -ma <= a <= ma,
        -mb <= b <= mb,
    ensures
        -(ma * mb) <= a * b <= ma * mb,
{
}

/// Cross-multiplied fractions compare transitively through a fraction with a
/// positive denominator.
pub proof fn lemma_cross_transitive(an: int, ad: int, bn: int, bd: int, cn: int, cd: int)
    by (nonlinear_arith)
    requires
        ad >= 0,
        bd > 0,
        cd >= 0,
        an * bd <= bn * ad,
        bn * cd <= cn * bd,
    ensures
        an * cd <= cn * ad,
{
    assert((an * bd) * cd <= (bn * ad) * cd);
    assert((bn * cd) * ad <= (cn * bd) * ad);
    assert((an * cd) * bd <= (cn * ad) * bd);
}

/// The order of ray parameters is transitive.
pub proof fn lemma_le_transitive(a: RayParam, b: RayParam, c: RayParam)
    requires
        a.wf(),
        b.wf(),
        c.wf(),
        a.le(b),
        b.le(c),
    ensures
        a.le(c),
{
    if b.den > 0 {
        lemma_cross_transitive(
            a.num as int,
            a.den as int,
            b.num as int,
            b.den as int,
            c.num as int,
            c.den as int,
        );
        if a.den == 0 && c.den == 0 {
            assert(a.num * b.den <= b.num * 0);
            assert(b.num * 0 <= c.num * b.den);
            lemma_sign_of_scaled(a.num as int, c.num as int, b.den as int);
        }
    } else {
        assert(b.num * 0 == 0);
        assert(a.num * 0 == 0);
        assert(c.num * 0 == 0);
        if b.num == 1 {
            if c.den != 0 {
                assert(1 * c.den == c.den);
            }
        } else {
            if a.den != 0 {
                assert(-1 * a.den == -a.den);
            }
        }
    }
}

/// If `a * d <= 0 <= c * d` for a positive `d`, then `a <= c`.
proof fn lemma_sign_of_scaled(a: int, c: int, d: int)
    by (nonlinear_arith)
    requires
        d > 0,
        a * d <= 0,
        0 <= c * d,
    ensures
        a <= c,
{
}

/// Of two ray parameters, one is at most the other.
pub proof fn lemma_le_total(a: RayParam, b: RayParam)
    ensures
        a.le(b) || b.le(a),
{
}

/// A ray: the points `o + t * d` for the parameters `t` between zero and
/// `t_max`, both excluded.
#[derive(Clone, Copy, Debug, PartialEq, Eq, Structural)]
pub struct Ray {
    /// Origin.
    pub o: Point3i,
    /// Direction.
    pub d: Vector3i,
    /// The end of the ray's extent.
    pub t_max: RayParam,
    /// The time of the ray.
    pub time: i64,
    /// The medium that holds the origin.
    pub medium: Option<Medium>,
}

/// Whether `c` can be a component of a ray's origin or direction.
pub open spec fn ray_component(c: i64) -> bool {
    RAY_MIN <= c <= RAY_MAX
}

impl Ray {
    /// Origin and direction are within the range of ray components, and the
    /// extent is a well-formed parameter.
    pub open spec fn wf(self) -> bool {
        &&& ray_component(self.o.x) && ray_component(self.o.y) && ray_component(self.o.z)
        &&& ray_component(self.d.x) && ray_component(self.d.y) && ray_component(self.d.z)
        &&& self.t_max.wf()
    }

    /// The same ray with another extent.
    pub open spec fn with_t_max(self, t: RayParam) -> Ray {
        Ray { t_max: t, ..self }
    }

    /// Whether the ray is well formed.
    pub fn is_valid(&self) -> (b: bool)
        ensures
            b == self.wf(),
    {
        RAY_MIN <= self.o.x && self.o.x <= RAY_MAX && RAY_MIN <= self.o.y && self.o.y <= RAY_MAX
            && RAY_MIN <= self.o.z && self.o.z <= RAY_MAX && RAY_MIN <= self.d.x && self.d.x
            <= RAY_MAX && RAY_MIN <= self.d.y && self.d.y <= RAY_MAX && RAY_MIN <= self.d.z
            && self.d.z <= RAY_MAX && self.t_max.den >= 0 && (self.t_max.den != 0 || self.t_max.num
            == 1 || self.t_max.num == -1)
    }

    /// A ray from its parts.
    pub fn new(o: Point3i, d: Vector3i, t_max: RayParam, time: i64, medium: Option<Medium>) -> (r:
        Ray)
        ensures
            r == (Ray { o, d, t_max, time, medium }),
    {
        Ray { o, d, t_max, time, medium }
    }
}

/// The parameter at which a line with origin coordinate `o` and direction
/// component `d` enters the slab between `lo` and `hi`.
///
/// A line parallel to the slab is inside it at every parameter or at none:
/// it enters at negative infinity or at positive infinity.
pub open spec fn slab_enter(lo: i64, hi: i64, o: i64, d: i64) -> RayParam {
    if d > 0 {
        RayParam { num: (lo - o) as i64, den: d }
    } else if d < 0 {
        RayParam { num: (o - hi) as i64, den: (-d) as i64 }
    } else if lo <= o <= hi {
        RayParam::neg_infinity_spec()
    } else {
        RayParam::infinity_spec()
    }
}

/// The parameter at which the line leaves the slab between `lo` and `hi`.
pub open spec fn slab_exit(lo: i64, hi: i64, o: i64, d: i64) -> RayParam {
    if d > 0 {
        RayParam { num: (hi - o) as i64, den: d }
    } else if d < 0 {
        RayParam { num: (o - lo) as i64, den: (-d) as i64 }
    } else if lo <= o <= hi {
        RayParam::infinity_spec()
    } else {
        RayParam::neg_infinity_spec()
    }
}

/// The point of the line at parameter `t` lies in the slab:
/// `lo <= o + t * d <= hi`, multiplied through by the denominator of `t`.
pub open spec fn slab_holds(lo: i64, hi: i64, o: i64, d: i64, t: RayParam) -> bool {
    lo * t.den <= o * t.den + t.num * d <= hi * t.den
}

/// Entry and leave of a line through the slab between `lo` and `hi`.
pub fn slab(lo: i64, hi: i64, o: i64, d: i64) -> (r: (RayParam, RayParam))
    requires
        crate::geometry::coord_in_range(lo),
        crate::geometry::coord_in_range(hi),
        ray_component(o),
        ray_component(d),
    ensures
        r.0 == slab_enter(lo, hi, o, d),
        r.1 == slab_exit(lo, hi, o, d),
        r.0.wf(),
        r.1.wf(),
{
    if d > 0 {
        (RayParam { num: lo - o, den: d }, RayParam { num: hi - o, den: d })
    } else if d < 0 {
        (RayParam { num: o - hi, den: -d }, RayParam { num: o - lo, den: -d })
    } else if lo <= o && o <= hi {
        (RayParam { num: -1, den: 0 }, RayParam { num: 1, den: 0 })
    } else {
        (RayParam { num: 1, den: 0 }, RayParam { num: -1, den: 0 })
    }
}

impl Bounds3i {
    /// Where the line from `o` along `d` enters the box's slab of `axis`.
    pub open spec fn enter(self, o: Point3i, d: Vector3i, axis: Axis) -> RayParam {
        slab_enter(self.p_min.get(axis), self.p_max.get(axis), o.get(axis), d.get(axis))
    }

    /// Where the line from `o` along `d` leaves the box's slab of `axis`.
    pub open spec fn exit(self, o: Point3i, d: Vector3i, axis: Axis) -> RayParam {
        slab_exit(self.p_min.get(axis), self.p_max.get(axis), o.get(axis), d.get(axis))
    }

    /// The line is inside all three slabs over a common stretch of parameters
    /// that begins before `ray.t_max` and ends after zero: every entry is at
    /// most every exit, every entry is less than `ray.t_max`, and every exit is
    /// greater than zero.
    pub open spec fn ray_overlaps(self, ray: Ray) -> bool {
        &&& forall|i: Axis, j: Axis|
            (#[trigger] self.enter(ray.o, ray.d, i)).le(#[trigger] self.exit(ray.o, ray.d, j))
        &&& forall|i: Axis| (#[trigger] self.enter(ray.o, ray.d, i)).lt(ray.t_max)
        &&& forall|j: Axis| RayParam::zero_spec().lt(#[trigger] self.exit(ray.o, ray.d, j))
    }

    /// The point `o + t * d` lies in the box, for a finite `t`.
    pub open spec fn holds_at(self, o: Point3i, d: Vector3i, t: RayParam) -> bool {
        &&& t.den > 0
        &&& slab_holds(self.p_min.x, self.p_max.x, o.x, d.x, t)
        &&& slab_holds(self.p_min.y, self.p_max.y, o.y, d.y, t)
        &&& slab_holds(self.p_min.z, self.p_max.z, o.z, d.z, t)
    }

    /// Whether the ray passes through the box within its extent.
    pub fn intersect_p(&self, ray: &Ray) -> (b: bool)
        requires
            self.in_range(),
            ray.wf(),
        ensures
            b == self.ray_overlaps(*ray),
    {
        let (ex, lx) = slab(self.p_min.x, self.p_max.x, ray.o.x, ray.d.x);
        let (ey, ly) = slab(self.p_min.y, self.p_max.y, ray.o.y, ray.d.y);
        let (ez, lz) = slab(self.p_min.z, self.p_max.z, ray.o.z, ray.d.z);
        let zero = RayParam::zero();
        let pairs = ex.is_le(&lx) && ex.is_le(&ly) && ex.is_le(&lz) && ey.is_le(&lx) && ey.is_le(
            &ly,
        ) && ey.is_le(&lz) && ez.is_le(&lx) && ez.is_le(&ly) && ez.is_le(&lz);
        let before = ex.is_lt(&ray.t_max) && ey.is_lt(&ray.t_max) && ez.is_lt(&ray.t_max);
        let after = zero.is_lt(&lx) && zero.is_lt(&ly) && zero.is_lt(&lz);
        proof {
            assert(ex == self.enter(ray.o, ray.d, Axis::X));
            assert(ey == self.enter(ray.o, ray.d, Axis::Y));
            assert(ez == self.enter(ray.o, ray.d, Axis::Z));
            assert(lx == self.exit(ray.o, ray.d, Axis::X));
            assert(ly == self.exit(ray.o, ray.d, Axis::Y));
            assert(lz == self.exit(ray.o, ray.d, Axis::Z));
            if pairs && before && after {
                assert forall|i: Axis, j: Axis|
                    (#[trigger] self.enter(ray.o, ray.d, i)).le(
                        #[trigger] self.exit(ray.o, ray.d, j),
                    ) by {
                    lemma_axis_cases(i);
                    lemma_axis_cases(j);
                }
                assert forall|i: Axis| (#[trigger] self.enter(ray.o, ray.d, i)).lt(ray.t_max) by {
                    lemma_axis_cases(i);
                }
                assert forall|j: Axis|
                    RayParam::zero_spec().lt(#[trigger] self.exit(ray.o, ray.d, j)) by {
                    lemma_axis_cases(j);
                }
            }
        }
        pairs && before && after
    }
}

/// An axis is one of the three.
pub proof fn lemma_axis_cases(a: Axis)
    ensures
        a == Axis::X || a == Axis::Y || a == Axis::Z,
{
}

/// A line that is inside a slab at the finite parameter `t` has entered it by
/// then and not yet left it.
pub proof fn lemma_slab_brackets(lo: i64, hi: i64, o: i64, d: i64, t: RayParam)
    requires
        crate::geometry::coord_in_range(lo),
        crate::geometry::coord_in_range(hi),
        ray_component(o),
        ray_component(d),
        t.den > 0,
        slab_holds(lo, hi, o, d, t),
    ensures
        slab_enter(lo, hi, o, d).wf(),
        slab_exit(lo, hi, o, d).wf(),
        slab_enter(lo, hi, o, d).le(t),
        t.le(slab_exit(lo, hi, o, d)),
{
    let e = slab_enter(lo, hi, o, d);
    let l = slab_exit(lo, hi, o, d);
    if d > 0 {
        assert(e.num * t.den <= t.num * e.den && t.num * l.den <= l.num * t.den)
            by (nonlinear_arith)
            requires
                e.num == lo - o,
                e.den == d,
                l.num == hi - o,
                l.den == d,
                lo * t.den <= o * t.den + t.num * d <= hi * t.den,
        ;
    } else if d < 0 {
        assert(e.num * t.den <= t.num * e.den && t.num * l.den <= l.num * t.den)
            by (nonlinear_arith)
            requires
                e.num == o - hi,
                e.den == -d,
                l.num == o - lo,
                l.den == -d,
                lo * t.den <= o * t.den + t.num * d <= hi * t.den,
        ;
    } else {
        assert(lo <= o <= hi) by (nonlinear_arith)
            requires
                t.den > 0,
                d == 0,
                lo * t.den <= o * t.den + t.num * d <= hi * t.den,
        ;
        assert(t.num * 0 == 0);
    }
}

/// A box that holds the ray's point at a finite parameter between zero and the
/// ray's extent is passed through by the ray.
pub proof fn lemma_point_inside_overlaps(b: Bounds3i, ray: Ray, t: RayParam)
    requires
        b.in_range(),
        ray.wf(),
        t.wf(),
        RayParam::zero_spec().lt(t),
        t.lt(ray.t_max),
        b.holds_at(ray.o, ray.d, t),
    ensures
        b.ray_overlaps(ray),
{
    let zero = RayParam::zero_spec();
    assert forall|i: Axis| #![auto]
        b.enter(ray.o, ray.d, i).wf() && b.exit(ray.o, ray.d, i).wf() && b.enter(
            ray.o,
            ray.d,
            i,
        ).le(t) && t.le(b.exit(ray.o, ray.d, i)) by {
        lemma_slab_brackets(
            b.p_min.get(i),
            b.p_max.get(i),
            ray.o.get(i),
            ray.d.get(i),
            t,
        );
    }
    assert forall|i: Axis, j: Axis|
        (#[trigger] b.enter(ray.o, ray.d, i)).le(#[trigger] b.exit(ray.o, ray.d, j)) by {
        lemma_le_transitive(b.enter(ray.o, ray.d, i), t, b.exit(ray.o, ray.d, j));
    }
    assert forall|i: Axis| (#[trigger] b.enter(ray.o, ray.d, i)).lt(ray.t_max) by {
        if ray.t_max.le(b.enter(ray.o, ray.d, i)) {
            lemma_le_transitive(ray.t_max, b.enter(ray.o, ray.d, i), t);
        }
    }
    assert forall|j: Axis| zero.lt(#[trigger] b.exit(ray.o, ray.d, j)) by {
        if b.exit(ray.o, ray.d, j).le(zero) {
            lemma_le_transitive(t, b.exit(ray.o, ray.d, j), zero);
        }
    }
}

/// A box that encloses a box that holds a point of the line holds it too.
pub proof fn lemma_holds_at_enclosing(inner: Bounds3i, outer: Bounds3i, o: Point3i, d: Vector3i, t: RayParam)
    requires
        outer.encloses(inner),
        inner.holds_at(o, d, t),
    ensures
        outer.holds_at(o, d, t),
{
    lemma_scaled_order(outer.p_min.x as int, inner.p_min.x as int, t.den as int);
    lemma_scaled_order(outer.p_min.y as int, inner.p_min.y as int, t.den as int);
    lemma_scaled_order(outer.p_min.z as int, inner.p_min.z as int, t.den as int);
    lemma_scaled_order(inner.p_max.x as int, outer.p_max.x as int, t.den as int);
    lemma_scaled_order(inner.p_max.y as int, outer.p_max.y as int, t.den as int);
    lemma_scaled_order(inner.p_max.z as int, outer.p_max.z as int, t.den as int);
}

/// Multiplying by a positive number keeps the order.
pub proof fn lemma_scaled_order(a: int, b: int, m: int)
    by (nonlinear_arith)
    requires
        a <= b,
        m >= 0,
    ensures
        a * m <= b * m,
{
}

} // verus!
