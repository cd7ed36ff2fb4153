use bvh_accel::bvh::accel::BVHAccel;
use bvh_accel::bvh::common::SplitMethod;
use bvh_accel::cuboid::Cuboid;
use bvh_accel::geometry::{Bounds3i, Point3i, Vector3i};
use bvh_accel::interaction::Material;
use bvh_accel::light::{Light, AREA_LIGHT, DELTA_POSITION_LIGHT, INFINITE_LIGHT};
use bvh_accel::ray::{Ray, RayParam};
use bvh_accel::scene::{Passage, Scene};
use bvh_accel::spectrum::{
    are_spectrum_samples_sorted, interpolate_spectrum_samples, rgb_to_xyz, sort_spectrum_samples,
    xyz_to_rgb, Fraction, Sample, SpectrumType,
};
use bvh_accel::tiles::{tile_bounds, tile_counts, tiles, Bounds2i, Point2i, Tile};

fn slab_cube(cx: i64, material: Option<Material>) -> Cuboid {
    Cuboid::new(
        Bounds3i::new(Point3i::new(cx - 1, -1, -1), Point3i::new(cx + 1, 1, 1)),
        material,
        None,
    )
}

fn scene_ray(o: (i64, i64, i64), d: (i64, i64, i64)) -> Ray {
    Ray::new(
        Point3i::new(o.0, o.1, o.2),
        Vector3i::new(d.0, d.1, d.2),
        RayParam::infinity(),
        0,
        None,
    )
}

fn lit_scene() -> Scene<Cuboid> {
    let prims = vec![slab_cube(0, None), slab_cube(10, Some(Material { id: 1 })), slab_cube(20, None)];
    let lights = vec![
        Light::new(0, AREA_LIGHT),
        Light::new(1, INFINITE_LIGHT),
        Light::new(2, DELTA_POSITION_LIGHT),
        Light::new(3, INFINITE_LIGHT | AREA_LIGHT),
    ];
    Scene::new(BVHAccel::new(prims, 1, SplitMethod::SAH), lights)
}

#[test]
fn scene_sorts_out_its_infinite_lights() {
    let s = lit_scene();
    assert_eq!(s.lights.len(), 4);
    assert_eq!(s.infinite_lights.iter().map(|l| l.id).collect::<Vec<_>>(), vec![1, 3]);
    assert_eq!(s.world_bound, Bounds3i::new(Point3i::new(-1, -1, -1), Point3i::new(21, 1, 1)));
    assert!(Light::new(1, INFINITE_LIGHT).is_infinite());
    assert!(!Light::new(1, AREA_LIGHT).is_infinite());
}

#[test]
fn scene_queries_go_to_the_accelerator() {
    let s = lit_scene();
    let mut r = scene_ray((-5, 0, 0), (1, 0, 0));
    assert!(s.intersect_p(&r));
    let si = s.intersect(&mut r).expect("the first cube is hit");
    assert_eq!(si.t, RayParam::new(4, 1));
    assert_eq!(r.t_max, RayParam::new(4, 1));
    let mut away = scene_ray((-5, 0, 0), (-1, 0, 0));
    assert!(!s.intersect_p(&away));
    assert_eq!(s.intersect(&mut away), None);
}

#[test]
fn passage_through_boundaries_reaches_the_surface() {
    let s = lit_scene();
    let mut r = scene_ray((-5, 0, 0), (1, 0, 0));
    // the first cube has no material: the ray goes on from inside it
    let next = match s.next_passage(&mut r) {
        Passage::Boundary { si, next } => {
            assert_eq!(si.t, RayParam::new(4, 1));
            assert_eq!(si.material, None);
            assert_eq!(next.o, Point3i::new(1, 0, 0));
            assert_eq!(next.d, Vector3i::new(1, 0, 0));
            assert_eq!(next.t_max, RayParam::infinity());
            next
        }
        other => panic!("expected a boundary, got {:?}", other),
    };
    let mut r = next;
    match s.next_passage(&mut r) {
        Passage::Surface { si } => {
            assert_eq!(si.material, Some(Material { id: 1 }));
            assert_eq!(si.t, RayParam::new(8, 1));
        }
        other => panic!("expected a surface, got {:?}", other),
    }
    let mut gone = scene_ray((-5, 5, 0), (1, 0, 0));
    assert_eq!(s.next_passage(&mut gone), Passage::Escaped);
    assert_eq!(gone.t_max, RayParam::infinity());
}

#[test]
fn samples_are_paired_from_a_flat_list() {
    assert_eq!(Sample::new(400, 7), Sample { lambda: 400, value: 7 });
    assert_eq!(
        Sample::list(&[400, 1, 500, 2, 600, 3]),
        vec![Sample::new(400, 1), Sample::new(500, 2), Sample::new(600, 3)]
    );
    assert_eq!(Sample::list(&[400, 1, 500]), vec![Sample::new(400, 1)]);
    assert_eq!(Sample::list(&[400]), vec![]);
    assert_eq!(Sample::list(&[]), vec![]);
    assert_eq!(SpectrumType::Reflectance.index(), 0);
    assert_eq!(SpectrumType::Illuminant.index(), 1);
}

#[test]
fn sortedness_of_samples() {
    assert!(are_spectrum_samples_sorted(&vec![]));
    assert!(are_spectrum_samples_sorted(&vec![Sample::new(5, 0)]));
    assert!(are_spectrum_samples_sorted(&Sample::list(&[1, 0, 2, 0, 2, 0, 9, 0])));
    assert!(!are_spectrum_samples_sorted(&Sample::list(&[1, 0, 3, 0, 2, 0])));
    assert!(!are_spectrum_samples_sorted(&Sample::list(&[2, 0, 1, 0])));
}

#[test]
fn sorting_samples_keeps_equal_wavelengths_in_order() {
    let mut v = Sample::list(&[3, 10, 1, 20, 3, 30, 2, 40, 1, 50]);
    sort_spectrum_samples(&mut v);
    assert_eq!(v, Sample::list(&[1, 20, 1, 50, 2, 40, 3, 10, 3, 30]));
    assert!(are_spectrum_samples_sorted(&v));
    let mut e: Vec<Sample> = vec![];
    sort_spectrum_samples(&mut e);
    assert!(e.is_empty());
    let mut back = Sample::list(&[5, 0, 4, 1, 3, 2, 2, 3, 1, 4]);
    sort_spectrum_samples(&mut back);
    assert_eq!(back, Sample::list(&[1, 4, 2, 3, 3, 2, 4, 1, 5, 0]));
}

#[test]
fn interpolation_runs_on_straight_lines_between_samples() {
    let v = Sample::list(&[400, 10, 500, 30, 700, 50]);
    assert_eq!(interpolate_spectrum_samples(&v, 300), Fraction { num: 10, den: 1 });
    assert_eq!(interpolate_spectrum_samples(&v, 400), Fraction { num: 10, den: 1 });
    assert_eq!(interpolate_spectrum_samples(&v, 450), Fraction { num: 2000, den: 100 });
    assert_eq!(interpolate_spectrum_samples(&v, 499), Fraction { num: 10 + 30 * 99, den: 100 });
    assert_eq!(interpolate_spectrum_samples(&v, 500), Fraction { num: 6000, den: 200 });
    assert_eq!(interpolate_spectrum_samples(&v, 650), Fraction { num: 30 * 50 + 50 * 150, den: 200 });
    assert_eq!(interpolate_spectrum_samples(&v, 700), Fraction { num: 50, den: 1 });
    assert_eq!(interpolate_spectrum_samples(&v, 900), Fraction { num: 50, den: 1 });
    let one = Sample::list(&[400, 10]);
    assert_eq!(interpolate_spectrum_samples(&one, 500), Fraction { num: 10, den: 1 });
    let twice = Sample::list(&[400, 10, 400, 20, 500, 30]);
    assert_eq!(interpolate_spectrum_samples(&twice, 450), Fraction { num: 20 * 50 + 30 * 50, den: 100 });
}

#[test]
fn colours_are_converted_in_millionths() {
    assert_eq!(xyz_to_rgb(&[1, 0, 0]), [3240479, -969256, 55648]);
    assert_eq!(xyz_to_rgb(&[0, 1, 0]), [-1537150, 1875991, -204043]);
    assert_eq!(xyz_to_rgb(&[0, 0, 1]), [-498535, 41556, 1057311]);
    assert_eq!(rgb_to_xyz(&[1, 1, 1]), [950456, 1000000, 1088754]);
    assert_eq!(rgb_to_xyz(&[2, 0, -1]), [2 * 412453 - 180423, 2 * 212671 - 72169, 2 * 19334 - 950227]);
    assert_eq!(xyz_to_rgb(&[0, 0, 0]), [0, 0, 0]);
}

fn area(x0: i32, y0: i32, x1: i32, y1: i32) -> Bounds2i {
    Bounds2i::new(Point2i::new(x0, y0), Point2i::new(x1, y1))
}

#[test]
fn tiles_are_counted_by_sixteen_pixels() {
    assert_eq!(tile_counts(&area(0, 0, 40, 20)), (3, 2));
    assert_eq!(tile_counts(&area(0, 0, 32, 16)), (2, 1));
    assert_eq!(tile_counts(&area(-8, 5, 9, 5)), (2, 0));
    assert_eq!(tile_counts(&area(0, 0, 0, 0)), (0, 0));
    assert_eq!(tile_bounds(&area(0, 0, 40, 20), 2, 1), area(32, 16, 40, 20));
    assert_eq!(tile_bounds(&area(-8, 5, 40, 40), 0, 0), area(-8, 5, 8, 21));
}

#[test]
fn tiles_come_column_by_column() {
    let a = area(0, 0, 40, 20);
    let t = tiles(&a).expect("six tiles");
    assert_eq!(
        t.iter().map(|t| (t.x, t.y)).collect::<Vec<_>>(),
        vec![(0, 0), (0, 1), (1, 0), (1, 1), (2, 0), (2, 1)]
    );
    assert_eq!(t.iter().map(|t| t.seed).collect::<Vec<_>>(), vec![0, 3, 1, 4, 2, 5]);
    assert_eq!(t[5], Tile { x: 2, y: 1, seed: 5, bounds: area(32, 16, 40, 20) });
    assert_eq!(t[1].bounds, area(0, 16, 16, 20));
    assert_eq!(tiles(&area(3, 3, 3, 9)), Some(vec![]));
}

#[test]
fn tiles_cover_every_pixel_once() {
    let a = area(-5, 7, 41, 60);
    let t = tiles(&a).expect("tiles");
    for x in -5..41 {
        for y in 7..60 {
            let p = Point2i::new(x, y);
            assert!(a.contains_exclusive(&p));
            assert_eq!(t.iter().filter(|t| t.bounds.contains_exclusive(&p)).count(), 1);
        }
    }
    assert!(!a.contains_exclusive(&Point2i::new(41, 7)));
    assert!(!a.contains_exclusive(&Point2i::new(-5, 60)));
}

#[test]
fn too_many_tiles_are_refused() {
    assert_eq!(tiles(&area(0, 0, 1 << 20, 1 << 20)), None);
    assert_eq!(tiles(&area(0, 0, 1 << 16, 1 << 16)).map(|t| t.len()), Some(1 << 24));
}
