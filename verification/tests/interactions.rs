use bvh_accel::cuboid::Cuboid;
use bvh_accel::geometry::{Bounds3i, Normal3i, Point3i, Vector3i};
use bvh_accel::interaction::{
    Hit, Interaction, Material, MediumInteraction, SurfaceInteraction, SHADOW_DEN, SHADOW_NUM,
};
use bvh_accel::medium::{Medium, MediumInterface};
use bvh_accel::primitive::Primitive;
use bvh_accel::ray::{Ray, RayParam};

fn hit_with(n: (i64, i64, i64), mi: Option<MediumInterface>) -> Hit {
    Hit::new(
        Point3i::new(10, 20, 30),
        7,
        Vector3i::new(1, 2, 3),
        Vector3i::new(0, 0, -1),
        Normal3i::new(n.0, n.1, n.2),
        mi,
    )
}

#[test]
fn hit_keeps_its_parts() {
    let mi = MediumInterface::new(Some(Medium { id: 1 }), None);
    let h = hit_with((0, 0, 1), Some(mi));
    assert_eq!(h.p, Point3i::new(10, 20, 30));
    assert_eq!(h.time, 7);
    assert_eq!(h.p_error, Vector3i::new(1, 2, 3));
    assert_eq!(h.wo, Vector3i::new(0, 0, -1));
    assert_eq!(h.n, Normal3i::new(0, 0, 1));
    assert_eq!(h.medium_interface, Some(mi));
}

#[test]
fn a_zero_normal_marks_a_medium_interaction() {
    assert!(hit_with((0, 0, 1), None).is_surface_interaction());
    assert!(!hit_with((0, 0, 1), None).is_medium_interaction());
    assert!(hit_with((0, -3, 0), None).is_surface_interaction());
    assert!(!hit_with((0, 0, 0), None).is_surface_interaction());
    assert!(hit_with((0, 0, 0), None).is_medium_interaction());
    assert_eq!(Normal3i::zero(), Normal3i::new(0, 0, 0));
}

#[test]
fn spawned_ray_leaves_on_the_side_of_its_direction() {
    let h = hit_with((0, 0, 1), None);
    let up = h.spawn_ray(&Vector3i::new(0, 0, 5));
    assert_eq!(up.o, Point3i::new(10, 20, 34));
    assert_eq!(up.d, Vector3i::new(0, 0, 5));
    assert_eq!(up.t_max, RayParam::infinity());
    assert_eq!(up.time, 7);
    assert_eq!(up.medium, None);
    let down = h.spawn_ray(&Vector3i::new(4, 0, -5));
    assert_eq!(down.o, Point3i::new(10, 20, 26));
    let along = h.spawn_ray(&Vector3i::new(1, 0, 0));
    assert_eq!(along.o, Point3i::new(10, 20, 34));
}

#[test]
fn spawned_ray_offset_grows_with_the_normal() {
    let h = hit_with((2, -1, 0), None);
    // offset length |2| * 1 + |-1| * 2 = 4, along the normal: (8, -4, 0)
    let r = h.spawn_ray(&Vector3i::new(1, 0, 0));
    assert_eq!(r.o, Point3i::new(10 + 8 + 1, 20 - 4 - 1, 30));
    let back = h.spawn_ray(&Vector3i::new(-1, 0, 0));
    assert_eq!(back.o, Point3i::new(10 - 8 - 1, 20 + 4 + 1, 30));
}

#[test]
fn ray_towards_a_point_stops_short_of_it() {
    let h = hit_with((0, 0, 1), None);
    let r = h.spawn_ray_to(&Point3i::new(10, 20, 130));
    assert_eq!(r.o, Point3i::new(10, 20, 34));
    assert_eq!(r.d, Vector3i::new(0, 0, 96));
    assert_eq!(r.t_max, RayParam::new(SHADOW_NUM, SHADOW_DEN));
    assert_eq!((SHADOW_NUM, SHADOW_DEN), (9999, 10000));
    assert_eq!(r.time, 7);
}

#[test]
fn medium_follows_the_side_of_the_normal() {
    let inside = Medium { id: 1 };
    let outside = Medium { id: 2 };
    let h = hit_with((0, 0, 1), Some(MediumInterface::new(Some(inside), Some(outside))));
    assert_eq!(h.get_medium_in_direction(&Vector3i::new(0, 0, 1)), Some(outside));
    assert_eq!(h.get_medium_in_direction(&Vector3i::new(0, 0, -1)), Some(inside));
    assert_eq!(h.get_medium_in_direction(&Vector3i::new(1, 0, 0)), Some(inside));
    assert_eq!(hit_with((0, 0, 1), None).get_medium_in_direction(&Vector3i::new(0, 0, 1)), None);
    assert_eq!(h.spawn_ray(&Vector3i::new(0, 0, 1)).medium, Some(outside));
    assert_eq!(h.spawn_ray(&Vector3i::new(0, 0, -1)).medium, Some(inside));
}

#[test]
fn medium_of_an_interface() {
    let a = Medium { id: 1 };
    let b = Medium { id: 2 };
    assert_eq!(hit_with((0, 0, 1), Some(MediumInterface::new(Some(a), Some(b)))).get_medium(), Some(a));
    assert_eq!(hit_with((0, 0, 1), Some(MediumInterface::new(Some(a), Some(a)))).get_medium(), None);
    assert_eq!(hit_with((0, 0, 1), Some(MediumInterface::new(None, Some(b)))).get_medium(), None);
    assert_eq!(hit_with((0, 0, 1), None).get_medium(), None);
    assert!(MediumInterface::new(Some(a), Some(b)).is_medium_transition());
    assert!(MediumInterface::new(Some(a), None).is_medium_transition());
    assert!(!MediumInterface::new(Some(a), Some(a)).is_medium_transition());
    assert!(!MediumInterface::new(None, None).is_medium_transition());
}

#[test]
fn interaction_gives_its_hit() {
    let h = hit_with((0, 0, 1), None);
    let g = hit_with((0, 0, 0), None);
    let si = SurfaceInteraction { hit: h, t: RayParam::new(3, 1), material: Some(Material { id: 4 }) };
    assert_eq!(*Interaction::Surface { si }.get_hit(), h);
    assert_eq!(*Interaction::Medium { mi: MediumInteraction { hit: g } }.get_hit(), g);
}

fn unit_cube() -> Cuboid {
    Cuboid::new(
        Bounds3i::new(Point3i::new(-1, -1, -1), Point3i::new(1, 1, 1)),
        Some(Material { id: 9 }),
        None,
    )
}

fn timed_ray(o: (i64, i64, i64), d: (i64, i64, i64)) -> Ray {
    Ray::new(
        Point3i::new(o.0, o.1, o.2),
        Vector3i::new(d.0, d.1, d.2),
        RayParam::infinity(),
        3,
        None,
    )
}

#[test]
fn cuboid_is_hit_where_the_ray_enters() {
    let c = unit_cube();
    let r = timed_ray((-5, 0, 0), (2, 0, 0));
    assert!(c.intersect_p(&r));
    let si = c.intersect(&r).expect("the ray enters the cube");
    assert_eq!(si.t, RayParam::new(4, 2));
    assert_eq!(si.hit.p, Point3i::new(-1, 0, 0));
    assert_eq!(si.hit.n, Normal3i::new(-1, 0, 0));
    assert_eq!(si.hit.wo, Vector3i::new(-2, 0, 0));
    assert_eq!(si.hit.p_error, Vector3i::new(1, 1, 1));
    assert_eq!(si.hit.time, 3);
    assert_eq!(si.material, Some(Material { id: 9 }));
    assert_eq!(c.world_bound(), Bounds3i::new(Point3i::new(-1, -1, -1), Point3i::new(1, 1, 1)));
}

#[test]
fn cuboid_is_hit_from_inside_where_the_ray_leaves() {
    let c = unit_cube();
    let si = c.intersect(&timed_ray((0, 0, 0), (0, 3, 0))).expect("the ray leaves the cube");
    assert_eq!(si.t, RayParam::new(1, 3));
    assert_eq!(si.hit.p, Point3i::new(0, 1, 0));
    assert_eq!(si.hit.n, Normal3i::new(0, -1, 0));
}

#[test]
fn cuboid_hit_point_is_rounded_down() {
    let c = unit_cube();
    // enters the face x = -1 at parameter 2/3, where y = -2/3 and z = 2/3
    let si = c.intersect(&timed_ray((-3, 0, 0), (3, -1, 1))).expect("the ray enters the cube");
    assert_eq!(si.t, RayParam::new(2, 3));
    assert_eq!(si.hit.p, Point3i::new(-1, -1, 0));
    assert_eq!(si.hit.n, Normal3i::new(-1, 0, 0));
}

#[test]
fn cuboid_misses() {
    let c = unit_cube();
    assert_eq!(c.intersect(&timed_ray((-5, 3, 0), (1, 0, 0))), None);
    assert!(!c.intersect_p(&timed_ray((-5, 3, 0), (1, 0, 0))));
    assert_eq!(c.intersect(&timed_ray((5, 0, 0), (1, 0, 0))), None);
    assert_eq!(c.intersect(&timed_ray((0, 0, 0), (0, 0, 0))), None);
    let mut short = timed_ray((-5, 0, 0), (1, 0, 0));
    short.t_max = RayParam::new(4, 1);
    assert_eq!(c.intersect(&short), None);
    assert!(!c.intersect_p(&short));
    short.t_max = RayParam::new(41, 10);
    assert!(c.intersect_p(&short));
}

#[test]
fn cuboid_out_of_range_counts_as_empty() {
    let far = Cuboid::new(
        Bounds3i::new(Point3i::new(0, 0, 0), Point3i::new(i64::MAX, 1, 1)),
        None,
        None,
    );
    assert_eq!(far.world_bound(), Bounds3i::empty());
    assert_eq!(far.intersect(&timed_ray((-5, 0, 0), (1, 0, 0))), None);
}
