//! What is known of the point where a ray meets a surface or a medium.

use vstd::prelude::*;
use crate::geometry::{Bounds3i, Normal3i, Point3i, Vector3i};
use crate::medium::{Medium, MediumInterface};
use crate::ray::{lemma_product_range, lemma_product_range2, ray_component, Ray, RayParam};

verus! {

/// The largest magnitude of a component of a hit's normal.
pub const NORMAL_MAX: i64 = 1024;

/// The largest component of a hit's error bound.
pub const ERROR_MAX: i64 = 1024;

/// The numerator of the extent of a ray spawned towards a point: it stops
/// short of the point by one part in `SHADOW_DEN`.
pub const SHADOW_NUM: i64 = 9999;

/// The denominator of the extent of a ray spawned towards a point.
pub const SHADOW_DEN: i64 = 10000;

/// The material of a surface, known by its number in the scene description.
#[derive(Clone, Copy, Debug, PartialEq, Eq, Structural)]
pub struct Material {
    pub id: u32,
}

/// The magnitude of a number.
pub open spec fn abs_spec(a: int) -> int {
    if a < 0 {
        -a
    } else {
        a
    }
}

/// The dot product of a direction with a normal.
pub open spec fn dot_spec(w: Vector3i, n: Normal3i) -> int {
    w.x * n.x + w.y * n.y + w.z * n.z
}

/// A coordinate moved by `off` and then one step further the same way, so that
/// it lies strictly beyond the offset; unmoved for a zero offset.
pub open spec fn nudge_spec(c: int, off: int) -> int {
    if off > 0 {
        c + off + 1
    } else if off < 0 {
        c + off - 1
    } else {
        c
    }
}

/// The length by which an origin is moved off a surface: the error bound
/// measured along the normal.
pub open spec fn offset_length(p_error: Vector3i, n: Normal3i) -> int {
    abs_spec(n.x as int) * p_error.x + abs_spec(n.y as int) * p_error.y + abs_spec(n.z as int)
        * p_error.z
}

/// The origin of a ray that leaves the point `p` towards `w`: `p` moved along
/// the normal, to the side that `w` points to, by the offset length times the
/// normal, and one step further.
pub open spec fn offset_origin_spec(p: Point3i, p_error: Vector3i, n: Normal3i, w: Vector3i) -> (
    int,
    int,
    int,
) {
    let len = offset_length(p_error, n);
    let s = if dot_spec(w, n) < 0 {
        -len
    } else {
        len
    };
    (
        nudge_spec(p.x as int, s * n.x),
        nudge_spec(p.y as int, s * n.y),
        nudge_spec(p.z as int, s * n.z),
    )
}

/// The data shared by all interactions.
#[derive(Clone, Copy, Debug, PartialEq, Eq, Structural)]
pub struct Hit {
    /// Point of interaction.
    pub p: Point3i,
    /// Time when the interaction occurred.
    pub time: i64,
    /// A bound on the error of `p`, per coordinate.
    pub p_error: Vector3i,
    /// The negative ray direction.
    pub wo: Vector3i,
    /// Surface normal at `p`; zero where there is no surface.
    pub n: Normal3i,
    /// The media on the two sides of the surface.
    pub medium_interface: Option<MediumInterface>,
}

/// The magnitude of a component of a normal.
fn exec_abs(a: i64) -> (r: i64)
    requires
        -NORMAL_MAX <= a <= NORMAL_MAX,
    ensures
        r == abs_spec(a as int),
{
    if a < 0 {
        -a
    } else {
        a
    }
}

/// The dot product of a direction with a normal.
fn exec_dot(w: &Vector3i, n: &Normal3i) -> (r: i128)
    requires
        ray_component(w.x) && ray_component(w.y) && ray_component(w.z),
        -NORMAL_MAX <= n.x <= NORMAL_MAX,
        -NORMAL_MAX <= n.y <= NORMAL_MAX,
        -NORMAL_MAX <= n.z <= NORMAL_MAX,
    ensures
        r == dot_spec(*w, *n),
{
    proof {
        lemma_product_range(w.x as int, n.x as int, 0x100_0000_0000);
        lemma_product_range(w.y as int, n.y as int, 0x100_0000_0000);
        lemma_product_range(w.z as int, n.z as int, 0x100_0000_0000);
    }
    (w.x as i128) * (n.x as i128) + (w.y as i128) * (n.y as i128) + (w.z as i128) * (n.z as i128)
}

/// A coordinate moved by `off` and one step further the same way.
fn exec_nudge(c: i64, off: i64) -> (r: i64)
    requires
        crate::geometry::coord_in_range(c),
        -0x1_0000_0000 <= off <= 0x1_0000_0000,
    ensures
        r == nudge_spec(c as int, off as int),
        -0x1_4000_0001 <= r <= 0x1_4000_0001,
{
    if off > 0 {
        c + off + 1
    } else if off < 0 {
        c + off - 1
    } else {
        c
    }
}

/// The origin of a ray that leaves `p` towards `w`.
fn offset_origin(p: &Point3i, p_error: &Vector3i, n: &Normal3i, w: &Vector3i) -> (o: Point3i)
    requires
        p.in_range(),
        0 <= p_error.x <= ERROR_MAX && 0 <= p_error.y <= ERROR_MAX && 0 <= p_error.z <= ERROR_MAX,
        -NORMAL_MAX <= n.x <= NORMAL_MAX,
        -NORMAL_MAX <= n.y <= NORMAL_MAX,
        -NORMAL_MAX <= n.z <= NORMAL_MAX,
        ray_component(w.x) && ray_component(w.y) && ray_component(w.z),
    ensures
        (o.x as int, o.y as int, o.z as int) == offset_origin_spec(*p, *p_error, *n, *w),
        -0x1_4000_0001 <= o.x <= 0x1_4000_0001,
        -0x1_4000_0001 <= o.y <= 0x1_4000_0001,
        -0x1_4000_0001 <= o.z <= 0x1_4000_0001,
{
    let ax = exec_abs(n.x);
    let ay = exec_abs(n.y);
    let az = exec_abs(n.z);
    proof {
        lemma_product_range(ax as int, p_error.x as int, 1024);
        lemma_product_range(ay as int, p_error.y as int, 1024);
        lemma_product_range(az as int, p_error.z as int, 1024);
    }
    let len: i64 = ax * p_error.x + ay * p_error.y + az * p_error.z;
    let s: i64 = if exec_dot(w, n) < 0 {
        -len
    } else {
        len
    };
    proof {
        lemma_product_range2(s as int, n.x as int, 3145728, 1024);
        lemma_product_range2(s as int, n.y as int, 3145728, 1024);
        lemma_product_range2(s as int, n.z as int, 3145728, 1024);
    }
    Point3i {
        x: exec_nudge(p.x, s * n.x),
        y: exec_nudge(p.y, s * n.y),
        z: exec_nudge(p.z, s * n.z),
    }
}

impl Hit {
    /// The point is within the coordinate range, and normal and error bound
    /// are within theirs.
    pub open spec fn wf(self) -> bool {
        &&& self.p.in_range()
        &&& 0 <= self.p_error.x <= ERROR_MAX
        &&& 0 <= self.p_error.y <= ERROR_MAX
        &&& 0 <= self.p_error.z <= ERROR_MAX
        &&& -NORMAL_MAX <= self.n.x <= NORMAL_MAX
        &&& -NORMAL_MAX <= self.n.y <= NORMAL_MAX
        &&& -NORMAL_MAX <= self.n.z <= NORMAL_MAX
    }

    /// Whether the hit is well formed.
    pub fn is_valid(&self) -> (b: bool)
        ensures
            b == self.wf(),
    {
        let p = Bounds3i { p_min: self.p, p_max: self.p };
        p.is_in_range() && 0 <= self.p_error.x && self.p_error.x <= ERROR_MAX && 0
            <= self.p_error.y && self.p_error.y <= ERROR_MAX && 0 <= self.p_error.z
            && self.p_error.z <= ERROR_MAX && -NORMAL_MAX <= self.n.x && self.n.x <= NORMAL_MAX
            && -NORMAL_MAX <= self.n.y && self.n.y <= NORMAL_MAX && -NORMAL_MAX <= self.n.z
            && self.n.z <= NORMAL_MAX
    }

    /// The medium on the side of the surface that `w` points to: the outside
    /// medium where `w` has a positive component along the normal, the inside
    /// medium otherwise; none without an interface.
    pub open spec fn medium_towards(self, w: Vector3i) -> Option<Medium> {
        match self.medium_interface {
            Some(mi) => if dot_spec(w, self.n) > 0 {
                mi.outside
            } else {
                mi.inside
            },
            None => None,
        }
    }

    /// The ray that leaves the hit point in direction `d`.
    pub open spec fn spawn_ray_spec(self, d: Vector3i) -> Ray {
        let o = offset_origin_spec(self.p, self.p_error, self.n, d);
        Ray {
            o: Point3i { x: o.0 as i64, y: o.1 as i64, z: o.2 as i64 },
            d,
            t_max: RayParam::infinity_spec(),
            time: self.time,
            medium: self.medium_towards(d),
        }
    }

    /// The ray that leaves the hit point towards `p` and stops short of it.
    pub open spec fn spawn_ray_to_spec(self, p: Point3i) -> Ray {
        let dir = Vector3i {
            x: (p.x - self.p.x) as i64,
            y: (p.y - self.p.y) as i64,
            z: (p.z - self.p.z) as i64,
        };
        let o = offset_origin_spec(self.p, self.p_error, self.n, dir);
        let d = Vector3i {
            x: (p.x - o.0) as i64,
            y: (p.y - o.1) as i64,
            z: (p.z - o.2) as i64,
        };
        Ray {
            o: Point3i { x: o.0 as i64, y: o.1 as i64, z: o.2 as i64 },
            d,
            t_max: RayParam { num: SHADOW_NUM, den: SHADOW_DEN },
            time: self.time,
            medium: self.medium_towards(d),
        }
    }

    /// A hit from its parts.
    pub fn new(
        p: Point3i,
        time: i64,
        p_error: Vector3i,
        wo: Vector3i,
        n: Normal3i,
        medium_interface: Option<MediumInterface>,
    ) -> (h: Hit)
        ensures
            h == (Hit { p, time, p_error, wo, n, medium_interface }),
    {
        Hit { p, time, p_error, wo, n, medium_interface }
    }

    /// Whether this is a hit on a surface: the normal is not zero.
    pub fn is_surface_interaction(&self) -> (b: bool)
        ensures
            b == (self.n != (Normal3i { x: 0, y: 0, z: 0 })),
    {
        self.n.x != 0 || self.n.y != 0 || self.n.z != 0
    }

    /// Whether this is a hit inside a medium: the normal is zero.
    pub fn is_medium_interaction(&self) -> (b: bool)
        ensures
            b == (self.n == (Normal3i { x: 0, y: 0, z: 0 })),
    {
        !self.is_surface_interaction()
    }

    /// The ray that leaves the hit point in direction `d`, with an unbounded
    /// extent.
    pub fn spawn_ray(&self, d: &Vector3i) -> (r: Ray)
        requires
            self.wf(),
            ray_component(d.x) && ray_component(d.y) && ray_component(d.z),
        ensures
            r == self.spawn_ray_spec(*d),
            r.wf(),
    {
        let o = offset_origin(&self.p, &self.p_error, &self.n, d);
        Ray::new(o, *d, RayParam::infinity(), self.time, self.get_medium_in_direction(d))
    }

    /// The ray that leaves the hit point towards `p` and stops just short of
    /// it.
    pub fn spawn_ray_to(&self, p: &Point3i) -> (r: Ray)
        requires
            self.wf(),
            p.in_range(),
        ensures
            r == self.spawn_ray_to_spec(*p),
            r.wf(),
    {
        let dir = Vector3i { x: p.x - self.p.x, y: p.y - self.p.y, z: p.z - self.p.z };
        let o = offset_origin(&self.p, &self.p_error, &self.n, &dir);
        let d = Vector3i { x: p.x - o.x, y: p.y - o.y, z: p.z - o.z };
        Ray::new(
            o,
            d,
            RayParam::new(SHADOW_NUM, SHADOW_DEN),
            self.time,
            self.get_medium_in_direction(&d),
        )
    }

    /// The medium on the side of the surface that `w` points to.
    pub fn get_medium_in_direction(&self, w: &Vector3i) -> (m: Option<Medium>)
        requires
            self.wf(),
            ray_component(w.x) && ray_component(w.y) && ray_component(w.z),
        ensures
            m == self.medium_towards(*w),
    {
        match self.medium_interface {
            Some(mi) => {
                if exec_dot(w, &self.n) > 0 {
                    mi.outside
                } else {
                    mi.inside
                }
            },
            None => None,
        }
    }

    /// The inside medium of an interface between two different media; none
    /// for an interface with the same medium on both sides, and none without
    /// an interface.
    pub fn get_medium(&self) -> (m: Option<Medium>)
        ensures
            m == match self.medium_interface {
                Some(mi) => if mi.is_transition() {
                    mi.inside
                } else {
                    None
                },
                None => None,
            },
    {
        match self.medium_interface {
            Some(mi) => {
                if mi.is_medium_transition() {
                    mi.inside
                } else {
                    None
                }
            },
            None => None,
        }
    }
}

/// The point where a ray meets a surface.
#[derive(Clone, Copy, Debug, PartialEq, Eq, Structural)]
pub struct SurfaceInteraction {
    /// The hit point and what belongs to it.
    pub hit: Hit,
    /// The ray parameter of the hit.
    pub t: RayParam,
    /// The material of the surface; none for a surface that only bounds a
    /// medium.
    pub material: Option<Material>,
}

/// A point inside a medium where a ray is scattered.
#[derive(Clone, Copy, Debug, PartialEq, Eq, Structural)]
pub struct MediumInteraction {
    /// The point and what belongs to it.
    pub hit: Hit,
}

/// An interaction of either kind.
#[derive(Clone, Copy, Debug, PartialEq, Eq, Structural)]
pub enum Interaction {
    /// A point on a surface.
    Surface { si: SurfaceInteraction },
    /// A point in a scattering medium.
    Medium { mi: MediumInteraction },
}

impl Interaction {
    /// The hit that the interaction carries.
    pub open spec fn hit_spec(self) -> Hit {
        match self {
            Interaction::Surface { si } => si.hit,
            Interaction::Medium { mi } => mi.hit,
        }
    }

    /// The hit that the interaction carries.
    pub fn get_hit(&self) -> (h: &Hit)
        ensures
            *h == self.hit_spec(),
    {
        match self {
            Interaction::Surface { si } => &si.hit,
            Interaction::Medium { mi } => &mi.hit,
        }
    }
}

} // verus!
