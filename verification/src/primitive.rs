//! The objects that an accelerator is built over.

use vstd::prelude::*;
use crate::geometry::Bounds3i;
use crate::interaction::SurfaceInteraction;
use crate::ray::{Ray, RayParam};

verus! {

/// A hit, if it lies before the extent `t_max`.
pub open spec fn within_extent(h: Option<SurfaceInteraction>, t_max: RayParam) -> Option<
    SurfaceInteraction,
> {
    match h {
        Some(si) => if si.t.lt(t_max) {
            h
        } else {
            None
        },
        None => None,
    }
}

/// A bounded object that rays can be tested against.
///
/// `nearest` is the object's model: the first place at a positive parameter
/// where the line of a ray meets the object. The three executable methods
/// answer by it.
pub trait Primitive {
    /// The object's bounding box.
    spec fn bounds(&self) -> Bounds3i;

    /// Where the line of `ray` first meets the object at a positive
    /// parameter, whatever the ray's extent.
    spec fn nearest(&self, ray: Ray) -> Option<SurfaceInteraction>;

    /// The bounding box is within the coordinate range.
    proof fn bounds_in_range(&self)
        ensures
            self.bounds().in_range(),
    ;

    /// A hit does not depend on the ray's extent, has a finite positive
    /// parameter, and lies within the bounding box; what it carries is well
    /// formed.
    proof fn nearest_is_bounded(&self, ray: Ray, t_max: RayParam)
        requires
            ray.wf(),
        ensures
            self.nearest(ray.with_t_max(t_max)) == self.nearest(ray),
            self.nearest(ray) matches Some(si) ==> si.t.wf() && si.t.is_finite()
                && RayParam::zero_spec().lt(si.t) && self.bounds().holds_at(ray.o, ray.d, si.t)
                && si.hit.wf(),
    ;

    /// The object's bounding box.
    fn world_bound(&self) -> (b: Bounds3i)
        ensures
            b == self.bounds(),
    ;

    /// The nearest hit, if it lies before the ray's extent.
    fn intersect(&self, ray: &Ray) -> (r: Option<SurfaceInteraction>)
        requires
            ray.wf(),
        ensures
            r == within_extent(self.nearest(*ray), ray.t_max),
    ;

    /// Whether there is a hit before the ray's extent.
    fn intersect_p(&self, ray: &Ray) -> (b: bool)
        requires
            ray.wf(),
        ensures
            b == within_extent(self.nearest(*ray), ray.t_max).is_some(),
    ;
}

} // verus!
