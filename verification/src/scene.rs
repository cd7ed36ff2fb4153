//! A scene: the geometry behind one accelerator, and the lights.

use vstd::prelude::*;
use crate::bvh::accel::BVHAccel;
use crate::geometry::Bounds3i;
use crate::interaction::SurfaceInteraction;
use crate::light::Light;
use crate::primitive::Primitive;
use crate::ray::Ray;

verus! {

/// The lights of `lights` that lie infinitely far away, in their order.
pub open spec fn infinite_among(lights: Seq<Light>) -> Seq<Light>
    decreases lights.len(),
{
    if lights.len() == 0 {
        Seq::empty()
    } else {
        let before = infinite_among(lights.drop_last());
        if lights.last().is_infinite_spec() {
            before.push(lights.last())
        } else {
            before
        }
    }
}

/// A scene.
pub struct Scene<P: Primitive> {
    /// All primitives of the scene.
    pub aggregate: BVHAccel<P>,
    /// All light sources of the scene.
    pub lights: Vec<Light>,
    /// The light sources that lie infinitely far away.
    pub infinite_lights: Vec<Light>,
    /// The bounding box of the scene's geometry.
    pub world_bound: Bounds3i,
}

/// What is to be done after a ray was traced to the next surface while light
/// is followed through media.
#[derive(Clone, Copy, Debug, PartialEq, Eq, Structural)]
pub enum Passage {
    /// The ray left the scene.
    Escaped,
    /// The ray met a surface that scatters light.
    Surface { si: SurfaceInteraction },
    /// The ray met a surface that only bounds a medium: it goes on as `next`.
    Boundary { si: SurfaceInteraction, next: Ray },
}

impl<P: Primitive> Scene<P> {
    /// The scene's infinite lights are those among its lights, and its box is
    /// that of its geometry.
    pub open spec fn wf(&self) -> bool {
        &&& self.aggregate.wf()
        &&& self.infinite_lights@ == infinite_among(self.lights@)
        &&& self.world_bound == self.aggregate.world_bound_spec()
    }

    /// The scene of the geometry `aggregate` and the lights `lights`.
    pub fn new(aggregate: BVHAccel<P>, lights: Vec<Light>) -> (scene: Self)
        ensures
            scene.wf(),
            scene.aggregate == aggregate,
            scene.lights@ == lights@,
    {
        let world_bound = aggregate.world_bound();
        let mut infinite_lights: Vec<Light> = Vec::new();
        let mut i: usize = 0;
        while i < lights.len()
            invariant
                i <= lights.len(),
                infinite_lights@ == infinite_among(lights@.take(i as int)),
            decreases lights.len() - i,
        {
            let l = lights[i];
            proof {
                let next = lights@.take(i + 1);
                assert(next.drop_last() =~= lights@.take(i as int));
                assert(next.last() == l);
            }
            if l.is_infinite() {
                infinite_lights.push(l);
            }
            i = i + 1;
        }
        proof {
            assert(lights@.take(lights.len() as int) =~= lights@);
            use_type_invariant(&aggregate);
        }
        Scene { aggregate, lights, infinite_lights, world_bound }
    }

    /// The nearest hit of `ray` in the scene, if one lies before the ray's
    /// extent; the ray's extent is shortened to it.
    pub fn intersect(&self, ray: &mut Ray) -> (r: Option<SurfaceInteraction>)
        requires
            old(ray).wf(),
        ensures
            self.aggregate.is_closest(*old(ray), r),
            *final(ray) == old(ray).with_t_max(
                match r {
                    Some(si) => si.t,
                    None => old(ray).t_max,
                },
            ),
    {
        self.aggregate.intersect(ray)
    }

    /// Traces `ray` to the next surface and tells how light that is followed
    /// through media goes on from there: the ray has left the scene, it has
    /// met a surface with a material, or it has met a surface without one
    /// and goes on from the hit point in its direction.
    pub fn next_passage(&self, ray: &mut Ray) -> (r: Passage)
        requires
            old(ray).wf(),
        ensures
            match r {
                Passage::Escaped => self.aggregate.is_closest(*old(ray), None) && *final(ray)
                    == *old(ray),
                Passage::Surface { si } => self.aggregate.is_closest(*old(ray), Some(si))
                    && si.material is Some && *final(ray) == old(ray).with_t_max(si.t),
                Passage::Boundary { si, next } => self.aggregate.is_closest(*old(ray), Some(si))
                    && si.material is None && *final(ray) == old(ray).with_t_max(si.t) && next
                    == si.hit.spawn_ray_spec(old(ray).d) && next.wf(),
            },
    {
        let ghost given = *ray;
        match self.aggregate.intersect(ray) {
            None => Passage::Escaped,
            Some(si) => {
                if si.material.is_some() {
                    Passage::Surface { si }
                } else {
                    proof {
                        self.aggregate.lemma_hit_is_well_formed(given, si);
                    }
                    let next = si.hit.spawn_ray(&ray.d);
                    Passage::Boundary { si, next }
                }
            },
        }
    }

    /// Whether something in the scene is hit by `ray` before the ray's
    /// extent.
    pub fn intersect_p(&self, ray: &Ray) -> (b: bool)
        requires
            ray.wf(),
        ensures
            b == self.aggregate.any_hit(*ray),
    {
        self.aggregate.intersect_p(ray)
    }
}

} // verus!
