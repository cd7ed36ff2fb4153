use bvh_accel::bvh::accel::BVHAccel;
use bvh_accel::bvh::common::SplitMethod;
use bvh_accel::cuboid::Cuboid;
use bvh_accel::geometry::{Bounds3i, Point3i, Vector3i};
use bvh_accel::interaction::Material;
use bvh_accel::primitive::Primitive;
use bvh_accel::ray::{Ray, RayParam};

fn cube(cx: i64, cy: i64, cz: i64, half: i64, id: u32) -> Cuboid {
    Cuboid::new(
        Bounds3i::new(
            Point3i::new(cx - half, cy - half, cz - half),
            Point3i::new(cx + half, cy + half, cz + half),
        ),
        Some(Material { id }),
        None,
    )
}

fn ray(o: (i64, i64, i64), d: (i64, i64, i64)) -> Ray {
    Ray::new(
        Point3i::new(o.0, o.1, o.2),
        Vector3i::new(d.0, d.1, d.2),
        RayParam::infinity(),
        0,
        None,
    )
}

// Three unit cubes at x = 0, 5 and 10, on a grid of half units.
fn three_cubes() -> Vec<Cuboid> {
    vec![cube(0, 0, 0, 1, 0), cube(10, 0, 0, 1, 1), cube(20, 0, 0, 1, 2)]
}

#[test]
fn three_cubes_closest_hit_is_the_first_cube() {
    let accel = BVHAccel::new(three_cubes(), 1, SplitMethod::SAH);
    let mut r = ray((-2, 0, 0), (1, 0, 0));
    assert!(accel.intersect_p(&r));
    let hit = accel.intersect(&mut r).expect("the ray meets the first cube");
    assert_eq!(hit.material, Some(Material { id: 0 }));
    assert_eq!(hit.t, RayParam::new(1, 1));
    assert_eq!(r.t_max, RayParam::new(1, 1));
    assert_eq!(hit.hit.p, Point3i::new(-1, 0, 0));
    assert_eq!(hit.hit.n.x, -1);
}

#[test]
fn three_cubes_ray_beside_them_hits_nothing() {
    let accel = BVHAccel::new(three_cubes(), 1, SplitMethod::SAH);
    let mut r = ray((200, 200, 0), (0, 1, 0));
    assert!(!accel.intersect_p(&r));
    assert_eq!(accel.intersect(&mut r), None);
    assert_eq!(r.t_max, RayParam::infinity());
}

#[test]
fn empty_collection_gives_empty_accelerator() {
    let accel: BVHAccel<Cuboid> = BVHAccel::new(Vec::new(), 4, SplitMethod::SAH);
    assert_eq!(accel.nodes().len(), 0);
    assert_eq!(accel.world_bound(), Bounds3i::empty());
    let mut r = ray((0, 0, 0), (1, 0, 0));
    assert!(!accel.intersect_p(&r));
    assert_eq!(accel.intersect(&mut r), None);
}

fn is_permutation(v: &[usize]) -> bool {
    let mut seen = vec![false; v.len()];
    for &k in v {
        if k >= v.len() || seen[k] {
            return false;
        }
        seen[k] = true;
    }
    true
}

fn scattered(n: usize) -> Vec<Cuboid> {
    let mut v = Vec::new();
    let mut s: i64 = 12345;
    for i in 0..n {
        s = (s * 1103515245 + 12345) % 2147483648;
        let x = s % 200 - 100;
        s = (s * 1103515245 + 12345) % 2147483648;
        let y = s % 200 - 100;
        s = (s * 1103515245 + 12345) % 2147483648;
        let z = s % 200 - 100;
        s = (s * 1103515245 + 12345) % 2147483648;
        let h = 1 + s % 7;
        v.push(cube(x, y, z, h, i as u32));
    }
    v
}

const METHODS: [SplitMethod; 4] =
    [SplitMethod::SAH, SplitMethod::HLBVH, SplitMethod::Middle, SplitMethod::EqualCounts];

#[test]
fn ordering_is_a_permutation() {
    for m in METHODS {
        for n in [1usize, 2, 3, 7, 50] {
            let accel = BVHAccel::new(scattered(n), 4, m);
            assert_eq!(accel.ordered_primitives().len(), n);
            assert!(is_permutation(accel.ordered_primitives()));
        }
    }
}

#[test]
fn root_bounds_are_the_union_of_all_bounds() {
    for m in METHODS {
        let prims = scattered(40);
        let mut all = Bounds3i::empty();
        for p in &prims {
            all = all.union(&p.world_bound());
        }
        let accel = BVHAccel::new(prims, 2, m);
        assert_eq!(accel.world_bound(), all);
        assert_eq!(accel.nodes()[0].bounds, all);
    }
}

#[test]
fn interior_bounds_are_the_union_of_the_children() {
    for m in METHODS {
        let accel = BVHAccel::new(scattered(50), 1, m);
        let nodes = accel.nodes();
        for (i, node) in nodes.iter().enumerate() {
            if node.n_primitives == 0 {
                let second = node.offset as usize;
                assert!(i + 1 < second && second < nodes.len());
                assert_eq!(node.bounds, nodes[i + 1].bounds.union(&nodes[second].bounds));
            }
        }
    }
}

#[test]
fn leaf_ranges_divide_the_ordering() {
    for m in METHODS {
        let accel = BVHAccel::new(scattered(50), 3, m);
        let mut covered = vec![0usize; 50];
        for node in accel.nodes() {
            if node.n_primitives > 0 {
                for p in node.offset as usize..node.offset as usize + node.n_primitives as usize {
                    covered[p] += 1;
                }
            }
        }
        assert!(covered.iter().all(|&c| c == 1));
    }
}

fn count_under(accel: &BVHAccel<Cuboid>, i: usize) -> usize {
    let node = accel.nodes()[i];
    if node.n_primitives > 0 {
        node.n_primitives as usize
    } else {
        count_under(accel, i + 1) + count_under(accel, node.offset as usize)
    }
}

#[test]
fn equal_counts_halves_every_interior_node() {
    for n in [2usize, 3, 5, 17, 50] {
        let accel = BVHAccel::new(scattered(n), 1, SplitMethod::EqualCounts);
        for (i, node) in accel.nodes().iter().enumerate() {
            if node.n_primitives == 0 {
                let k = count_under(&accel, i);
                assert_eq!(count_under(&accel, i + 1), k / 2);
                assert_eq!(count_under(&accel, node.offset as usize), k - k / 2);
            }
        }
    }
}

fn less(a: &RayParam, b: &RayParam) -> bool {
    a.is_lt(b)
}

#[test]
fn closest_hit_agrees_with_a_linear_scan() {
    let dirs = [(1, 0, 0), (-1, 0, 0), (0, 1, 0), (1, 1, 0), (1, 2, 3), (-3, 1, -2), (0, 0, 0)];
    for m in METHODS {
        let prims = scattered(50);
        let accel = BVHAccel::new(prims.clone(), 2, m);
        for oi in 0..30i64 {
            let o = ((oi * 37) % 240 - 120, (oi * 53) % 240 - 120, (oi * 71) % 240 - 120);
            for d in dirs {
                let r = ray(o, d);
                let mut oracle: Option<RayParam> = None;
                for p in &prims {
                    if let Some(si) = p.intersect(&r) {
                        if oracle.map_or(true, |t| less(&si.t, &t)) {
                            oracle = Some(si.t);
                        }
                    }
                }
                let mut q = r;
                let got = accel.intersect(&mut q);
                assert_eq!(accel.intersect_p(&r), got.is_some());
                match (got, oracle) {
                    (None, None) => assert_eq!(q.t_max, r.t_max),
                    (Some(si), Some(t)) => {
                        assert!(si.t.is_le(&t) && t.is_le(&si.t));
                        assert_eq!(q.t_max, si.t);
                    }
                    _ => panic!("the accelerator and the scan disagree"),
                }
            }
        }
    }
}

#[test]
fn a_hit_beyond_the_extent_does_not_count() {
    let accel = BVHAccel::new(three_cubes(), 1, SplitMethod::Middle);
    let mut r = ray((-5, 0, 0), (1, 0, 0));
    r.t_max = RayParam::new(4, 1);
    assert!(!accel.intersect_p(&r));
    assert_eq!(accel.intersect(&mut r), None);
    r.t_max = RayParam::new(9, 2);
    assert!(accel.intersect_p(&r));
    let hit = accel.intersect(&mut r).expect("the first cube is within reach");
    assert_eq!(hit.t, RayParam::new(4, 1));
}
