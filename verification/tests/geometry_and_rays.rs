use bvh_accel::geometry::{Axis, Bounds3i, Point3i, Vector3i, COORD_MAX, COORD_MIN};
use bvh_accel::ray::{slab, Ray, RayParam};

fn boxed(a: (i64, i64, i64), b: (i64, i64, i64)) -> Bounds3i {
    Bounds3i::new(Point3i::new(a.0, a.1, a.2), Point3i::new(b.0, b.1, b.2))
}

fn ray_with(o: (i64, i64, i64), d: (i64, i64, i64), t_max: RayParam) -> Ray {
    Ray::new(Point3i::new(o.0, o.1, o.2), Vector3i::new(d.0, d.1, d.2), t_max, 0, None)
}

#[test]
fn axis_bytes_round_trip() {
    assert_eq!(Axis::X.to_u8(), 0);
    assert_eq!(Axis::Y.to_u8(), 1);
    assert_eq!(Axis::Z.to_u8(), 2);
    assert_eq!(Axis::from_u8(0), Axis::X);
    assert_eq!(Axis::from_u8(1), Axis::Y);
    assert_eq!(Axis::from_u8(2), Axis::Z);
    assert_eq!(Axis::from_u8(200), Axis::Z);
    assert_eq!(Axis::default(), Axis::X);
}

#[test]
fn empty_box_is_the_identity_of_union() {
    let e = Bounds3i::empty();
    assert_eq!(e.p_min, Point3i::new(COORD_MAX, COORD_MAX, COORD_MAX));
    assert_eq!(e.p_max, Point3i::new(COORD_MIN, COORD_MIN, COORD_MIN));
    let b = boxed((-3, 2, 5), (4, 9, 6));
    assert_eq!(e.union(&b), b);
    assert_eq!(b.union(&e), b);
    assert_eq!(e.surface_area(), 0);
}

#[test]
fn union_takes_the_extremes() {
    let a = boxed((0, 0, 0), (1, 1, 1));
    let b = boxed((-2, 5, 0), (0, 6, 3));
    assert_eq!(a.union(&b), boxed((-2, 0, 0), (1, 6, 3)));
    assert_eq!(a.union_point(&Point3i::new(7, -1, 0)), boxed((0, -1, 0), (7, 1, 1)));
}

#[test]
fn surface_area_and_extent() {
    let b = boxed((0, 0, 0), (2, 3, 4));
    assert_eq!(b.surface_area(), 52);
    assert_eq!(b.diagonal(), Vector3i::new(2, 3, 4));
    assert_eq!(b.maximum_extent(), Axis::Z);
    assert_eq!(boxed((0, 0, 0), (5, 5, 1)).maximum_extent(), Axis::X);
    assert_eq!(boxed((0, 0, 0), (1, 5, 5)).maximum_extent(), Axis::Y);
    assert_eq!(boxed((0, 0, 0), (0, 3, 4)).surface_area(), 24);
}

#[test]
fn ray_parameters_compare_as_fractions() {
    let half = RayParam::new(1, 2);
    let two_thirds = RayParam::new(2, 3);
    let two_quarters = RayParam::new(2, 4);
    assert!(half.is_lt(&two_thirds));
    assert!(!two_thirds.is_lt(&half));
    assert!(half.is_le(&two_quarters) && two_quarters.is_le(&half));
    assert!(!half.is_lt(&two_quarters));
    assert!(RayParam::new(-1, 1).is_lt(&RayParam::zero()));
    let inf = RayParam::infinity();
    assert!(RayParam::new(i64::MAX, 1).is_lt(&inf));
    assert!(!inf.is_lt(&inf));
    assert!(inf.is_le(&inf));
    assert!(RayParam::new(-1, 0).is_lt(&RayParam::new(i64::MIN, 1)));
    assert!(RayParam::new(-1, 0).is_lt(&inf));
}

#[test]
fn slab_entry_and_leave() {
    assert_eq!(slab(2, 6, 0, 2), (RayParam::new(2, 2), RayParam::new(6, 2)));
    assert_eq!(slab(2, 6, 10, -4), (RayParam::new(4, 4), RayParam::new(8, 4)));
    assert_eq!(slab(2, 6, 3, 0), (RayParam::new(-1, 0), RayParam::new(1, 0)));
    assert_eq!(slab(2, 6, 7, 0), (RayParam::new(1, 0), RayParam::new(-1, 0)));
}

#[test]
fn box_test_follows_the_ray_extent() {
    let b = boxed((4, -1, -1), (6, 1, 1));
    assert!(b.intersect_p(&ray_with((0, 0, 0), (1, 0, 0), RayParam::infinity())));
    assert!(b.intersect_p(&ray_with((0, 0, 0), (2, 0, 0), RayParam::new(5, 2))));
    // the box starts at parameter 4: an extent of exactly 4 does not reach it
    assert!(!b.intersect_p(&ray_with((0, 0, 0), (1, 0, 0), RayParam::new(4, 1))));
    assert!(b.intersect_p(&ray_with((0, 0, 0), (1, 0, 0), RayParam::new(9, 2))));
    // behind the origin
    assert!(!b.intersect_p(&ray_with((0, 0, 0), (-1, 0, 0), RayParam::infinity())));
    // the origin inside
    assert!(b.intersect_p(&ray_with((5, 0, 0), (0, 0, 1), RayParam::infinity())));
    // parallel beside the box
    assert!(!b.intersect_p(&ray_with((0, 2, 0), (1, 0, 0), RayParam::infinity())));
    // parallel on a face
    assert!(b.intersect_p(&ray_with((0, 1, 0), (1, 0, 0), RayParam::infinity())));
    // slanted past a corner
    assert!(!b.intersect_p(&ray_with((0, 0, 0), (1, 1, 0), RayParam::infinity())));
    assert!(b.intersect_p(&ray_with((0, 0, 0), (5, 1, 0), RayParam::infinity())));
    // no direction
    assert!(!b.intersect_p(&ray_with((0, 0, 0), (0, 0, 0), RayParam::infinity())));
    // nothing passes through the empty box
    assert!(!Bounds3i::empty().intersect_p(&ray_with((0, 0, 0), (1, 0, 0), RayParam::infinity())));
}
