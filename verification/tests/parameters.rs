use bvh_accel::geometry::{Bounds3i, Normal3i, Point3i, Vector3i};
use bvh_accel::interaction::Hit;
use bvh_accel::paramset::{ParamSet, ParamSetItem, ParamSetMap, SpectrumParam};
use bvh_accel::ray::{Ray, RayParam, RAY_MAX};
use bvh_accel::spectrum::Sample;
use bvh_accel::tiles::{Bounds2i, Point2i};

#[test]
fn a_new_map_has_no_names() {
    let m: ParamSetMap<i32> = ParamSetMap::new();
    assert!(m.get("a").is_none());
    assert_eq!(m.find("a"), Vec::<i32>::new());
    assert_eq!(m.find_one("a", 7), 7);
    let item = ParamSetItem::new(vec![1, 2]);
    assert_eq!(item.values, vec![1, 2]);
    assert!(!item.looked_up);
}

#[test]
fn a_map_keeps_the_last_list_of_a_name() {
    let mut m: ParamSetMap<i32> = ParamSetMap::new();
    m.insert("a", vec![1, 2, 3]);
    m.insert("b", vec![4]);
    m.add("c", &[]);
    assert_eq!(m.get("a"), Some(&vec![1, 2, 3]));
    assert_eq!(m.find("b"), vec![4]);
    assert_eq!(m.find("c"), Vec::<i32>::new());
    assert_eq!(m.find_one("a", 0), 0);
    assert_eq!(m.find_one("b", 0), 4);
    assert_eq!(m.find_one("c", 9), 9);
    m.insert("a", vec![8]);
    assert_eq!(m.find("a"), vec![8]);
    assert_eq!(m.find("b"), vec![4]);
    assert_eq!(m.find_one("a", 0), 8);
}

#[test]
fn a_map_forgets_what_is_taken_out() {
    let mut m: ParamSetMap<bool> = ParamSetMap::new();
    m.add("x", &[true]);
    m.add("y", &[false, true]);
    m.add("z", &[false]);
    assert!(m.remove("y"));
    assert!(!m.remove("y"));
    assert!(!m.remove("w"));
    assert!(m.get("y").is_none());
    assert_eq!(m.find("x"), vec![true]);
    assert_eq!(m.find("z"), vec![false]);
    m.clear();
    assert!(m.get("x").is_none());
    assert!(m.get("z").is_none());
}

#[test]
fn spectra_are_read_from_flat_lists() {
    let mut s = ParamSet::new();
    s.add_rgb_spectrum("kd", &[1, 2, 3, 4, 5, 6]);
    assert_eq!(
        s.spectra.find("kd"),
        vec![SpectrumParam::Rgb { r: 1, g: 2, b: 3 }, SpectrumParam::Rgb { r: 4, g: 5, b: 6 }]
    );
    s.add_xyz_spectrum("ks", &[7, 8, 9]);
    assert_eq!(s.spectra.find("ks"), vec![SpectrumParam::Xyz { x: 7, y: 8, z: 9 }]);
    s.add_blackbody_spectrum("l", &[6500, 1, 3000, 2]);
    assert_eq!(
        s.spectra.find("l"),
        vec![
            SpectrumParam::Blackbody { temperature: 6500, scale: 1 },
            SpectrumParam::Blackbody { temperature: 3000, scale: 2 }
        ]
    );
    s.add_rgb_spectrum("kd", &[]);
    assert_eq!(s.spectra.find("kd"), vec![]);
    assert_eq!(s.spectra.find("ks").len(), 1);
}

#[test]
fn sampled_spectra_keep_their_samples() {
    let mut s = ParamSet::new();
    s.add_sampled_spectrum("a", &[400, 1, 500, 2, 600]);
    s.add_sampled_spectrum("b", &[700, 3]);
    assert_eq!(s.spectra.find("a"), vec![SpectrumParam::Sampled { series: 0 }]);
    assert_eq!(s.spectra.find("b"), vec![SpectrumParam::Sampled { series: 1 }]);
    assert_eq!(s.series.len(), 2);
    assert_eq!(s.series[0], vec![Sample::new(400, 1), Sample::new(500, 2)]);
    assert_eq!(s.series[1], vec![Sample::new(700, 3)]);
}

#[test]
fn spectra_of_files_come_from_the_cache() {
    let mut s = ParamSet::new();
    s.cached_spectra.insert("/data/a.spd", vec![SpectrumParam::Rgb { r: 1, g: 1, b: 1 }]);
    s.cached_spectra.insert("/data/empty.spd", vec![]);
    let resolved = vec![
        Some(String::from("/data/a.spd")),
        None,
        Some(String::from("/data/unread.spd")),
        Some(String::from("/data/empty.spd")),
        Some(String::from("/data/a.spd")),
    ];
    s.add_sampled_spectrum_files("glass", &resolved);
    assert_eq!(
        s.spectra.find("glass"),
        vec![
            SpectrumParam::Rgb { r: 1, g: 1, b: 1 },
            SpectrumParam::Black,
            SpectrumParam::Rgb { r: 1, g: 1, b: 1 }
        ]
    );
    assert_eq!(s.cached_spectra.find("/data/a.spd").len(), 1);
}

#[test]
fn file_names_fall_back_to_the_default() {
    let mut s = ParamSet::new();
    let d = String::from("default.exr");
    assert_eq!(s.find_one_filename("filename", d.clone()), d);
    s.strings.insert("filename", vec![String::from("out.exr")]);
    assert_eq!(s.find_one_filename("filename", d.clone()), "out.exr");
    assert_eq!(s.find_one_string("filename", d.clone()), "out.exr");
    s.strings.insert("filename", vec![String::new()]);
    assert_eq!(s.find_one_filename("filename", d.clone()), d);
    assert_eq!(s.find_one_string("filename", d.clone()), "");
    s.strings.insert("filename", vec![String::from("a"), String::from("b")]);
    assert_eq!(s.find_one_filename("filename", d.clone()), d);
    assert_eq!(s.find_one_string("other", d.clone()), d);
}

#[test]
fn clearing_takes_everything_out() {
    let mut s = ParamSet::new();
    s.ints.add("n", &[1]);
    s.bools.add("b", &[true]);
    s.floats.add("f", &[5]);
    s.point3fs.add("p", &[Point3i::new(1, 2, 3)]);
    s.vector3fs.add("v", &[Vector3i::new(1, 2, 3)]);
    s.normal3fs.add("n", &[Normal3i::new(0, 0, 1)]);
    s.point2fs.add("q", &[(1, 2)]);
    s.vector2fs.add("w", &[(3, 4)]);
    s.textures.insert("t", vec![String::from("checks")]);
    s.strings.insert("s", vec![String::from("x")]);
    s.add_sampled_spectrum("a", &[400, 1]);
    s.cached_spectra.insert("/a", vec![SpectrumParam::Black]);
    assert_eq!(s.ints.find_one("n", 0), 1);
    assert_eq!(s.point3fs.find("p"), vec![Point3i::new(1, 2, 3)]);
    s.clear();
    assert_eq!(s.ints.find_one("n", 0), 0);
    assert!(s.bools.get("b").is_none());
    assert!(s.floats.get("f").is_none());
    assert!(s.point3fs.get("p").is_none());
    assert!(s.vector3fs.get("v").is_none());
    assert!(s.normal3fs.get("n").is_none());
    assert!(s.point2fs.get("q").is_none());
    assert!(s.vector2fs.get("w").is_none());
    assert!(s.textures.get("t").is_none());
    assert!(s.strings.get("s").is_none());
    assert!(s.spectra.get("a").is_none());
    assert!(s.cached_spectra.get("/a").is_none());
    assert!(s.series.is_empty());
}

#[test]
fn validity_checks() {
    let ok = Ray::new(Point3i::new(0, 0, 0), Vector3i::new(1, 0, 0), RayParam::infinity(), 0, None);
    assert!(ok.is_valid());
    let mut far = ok;
    far.o.x = RAY_MAX + 1;
    assert!(!far.is_valid());
    let mut odd = ok;
    odd.t_max = RayParam::new(2, 0);
    assert!(!odd.is_valid());
    odd.t_max = RayParam::new(1, -3);
    assert!(!odd.is_valid());
    odd.t_max = RayParam::new(-5, 3);
    assert!(odd.is_valid());
    assert!(Bounds3i::empty().is_in_range());
    assert!(!Bounds3i::new(Point3i::new(0, 0, 0), Point3i::new(i64::MAX, 0, 0)).is_in_range());
    let h = Hit::new(
        Point3i::new(1, 2, 3),
        0,
        Vector3i::new(1, 1, 1),
        Vector3i::new(0, 0, 1),
        Normal3i::new(0, 0, 1),
        None,
    );
    assert!(h.is_valid());
    let mut bad = h;
    bad.p_error = Vector3i::new(-1, 0, 0);
    assert!(!bad.is_valid());
    bad = h;
    bad.n = Normal3i::new(0, 5000, 0);
    assert!(!bad.is_valid());
    assert!(Bounds2i::new(Point2i::new(0, 0), Point2i::new(10, 10)).is_valid());
    assert!(!Bounds2i::new(Point2i::new(5, 0), Point2i::new(4, 10)).is_valid());
    assert!(!Bounds2i::new(Point2i::new(i32::MIN, 0), Point2i::new(i32::MAX, 10)).is_valid());
}
