use bvh_accel::bvh::clustered::{build_upper_sah, hlbvh_build, morton_codes, treelet_groups, treelet_keys, treelet_ranks, treelet_records};
use bvh_accel::bvh::common::{
    BVHBuildNode, BVHPrimitiveInfo, BucketInfo, LinearBVHNode, SplitMethod, MAX_LEAF_PRIMITIVES,
};
use bvh_accel::bvh::morton::{encode_morton3, left_shift3, morton_cell, morton_code};
use bvh_accel::bvh::partition::{bucket_index, partition, select_nth, swap_infos, SplitRule};
use bvh_accel::bvh::recursive::{
    best_split, centroid_bounds, divide, divide_always, divide_at_middle, divide_by_area,
    divide_by_buckets, fill_buckets, leaf_cheaper, range_bounds, recursive_build,
};
use bvh_accel::geometry::{Axis, Bounds3i, Point3i};

fn info(i: usize, lo: (i64, i64, i64), hi: (i64, i64, i64)) -> BVHPrimitiveInfo {
    BVHPrimitiveInfo::new(
        i,
        Bounds3i::new(Point3i::new(lo.0, lo.1, lo.2), Point3i::new(hi.0, hi.1, hi.2)),
    )
}

fn row(xs: &[i64]) -> Vec<BVHPrimitiveInfo> {
    xs.iter().enumerate().map(|(i, &x)| info(i, (x, 0, 0), (x + 1, 1, 1))).collect()
}

fn numbers(v: &[BVHPrimitiveInfo]) -> Vec<usize> {
    v.iter().map(|i| i.primitive_number).collect()
}

fn sorted(mut v: Vec<usize>) -> Vec<usize> {
    v.sort();
    v
}

#[test]
fn primitive_info_centroid_is_the_sum_of_the_corners() {
    let i = info(5, (-3, 2, 10), (4, 2, 16));
    assert_eq!(i.primitive_number, 5);
    assert_eq!(i.bounds, Bounds3i::new(Point3i::new(-3, 2, 10), Point3i::new(4, 2, 16)));
    assert_eq!(i.centroid, Point3i::new(1, 4, 26));
}

#[test]
fn build_nodes_hold_what_they_are_given() {
    let b0 = Bounds3i::new(Point3i::new(0, 0, 0), Point3i::new(1, 1, 1));
    let b1 = Bounds3i::new(Point3i::new(5, 0, -2), Point3i::new(6, 1, 1));
    let l0 = BVHBuildNode::new_leaf_node(3, 2, b0);
    assert_eq!(l0.first_prim_offset, 3);
    assert_eq!(l0.n_primitives, 2);
    assert_eq!(l0.bounds, b0);
    assert!(l0.children.is_none());
    assert_eq!(l0.split_axis, Axis::X);
    let l1 = BVHBuildNode::new_leaf_node(5, 1, b1);
    let n = BVHBuildNode::new_interior_node(Axis::Z, l0, l1);
    assert_eq!(n.n_primitives, 0);
    assert_eq!(n.first_prim_offset, 0);
    assert_eq!(n.split_axis, Axis::Z);
    assert_eq!(n.bounds, Bounds3i::new(Point3i::new(0, 0, -2), Point3i::new(6, 1, 1)));
    let (c0, c1) = n.children.as_ref().expect("an interior node has children");
    assert_eq!((c0.first_prim_offset, c1.first_prim_offset), (3, 5));
}

#[test]
fn linear_nodes_hold_what_they_are_given() {
    let b = Bounds3i::new(Point3i::new(0, 0, 0), Point3i::new(1, 1, 1));
    let leaf = LinearBVHNode::new_leaf_node(b, 7, 3);
    assert_eq!((leaf.bounds, leaf.offset, leaf.n_primitives, leaf.axis, leaf.pad), (b, 7, 3, 0, 0));
    let inner = LinearBVHNode::new_interior_node(b, 9, 2);
    assert_eq!((inner.bounds, inner.offset, inner.n_primitives, inner.axis, inner.pad), (b, 9, 0, 2, 0));
    let d = LinearBVHNode::default();
    assert_eq!((d.bounds, d.offset, d.n_primitives, d.axis), (Bounds3i::empty(), 0, 0, 0));
    let e = BucketInfo::default();
    assert_eq!((e.count, e.bounds), (0, Bounds3i::empty()));
    assert_eq!(MAX_LEAF_PRIMITIVES, 65535);
}

#[test]
fn buckets_divide_the_spread_into_twelve() {
    assert_eq!(bucket_index(0, 0, 24), 0);
    assert_eq!(bucket_index(1, 0, 24), 0);
    assert_eq!(bucket_index(2, 0, 24), 1);
    assert_eq!(bucket_index(12, 0, 24), 6);
    assert_eq!(bucket_index(23, 0, 24), 11);
    assert_eq!(bucket_index(24, 0, 24), 11);
    assert_eq!(bucket_index(-10, -10, 30), 0);
    assert_eq!(bucket_index(30, -10, 30), 11);
    assert_eq!(bucket_index(-20, 0, 24), 0);
    assert_eq!(bucket_index(100, 0, 24), 11);
}

#[test]
fn partition_puts_the_taken_records_first() {
    let mut v = row(&[9, 1, 7, 3, 5, 0, 8]);
    // centroids are 2x + 1: below 11 means x < 5
    let rule = SplitRule::Below { axis: Axis::X, value: 11 };
    let mid = partition(&mut v, 0, 7, rule);
    assert_eq!(mid, 3);
    assert!(v[..mid].iter().all(|i| i.centroid.x < 11));
    assert!(v[mid..].iter().all(|i| i.centroid.x >= 11));
    assert_eq!(sorted(numbers(&v)), vec![0, 1, 2, 3, 4, 5, 6]);
    let at_most = partition(&mut v, 0, 7, SplitRule::AtMost { axis: Axis::X, value: 11 });
    assert_eq!(at_most, 4);
    let none = partition(&mut v, 0, 7, SplitRule::Below { axis: Axis::X, value: -5 });
    assert_eq!(none, 0);
    let all = partition(&mut v, 0, 7, SplitRule::Below { axis: Axis::X, value: 500 });
    assert_eq!(all, 7);
}

#[test]
fn partition_stays_within_its_range() {
    let mut v = row(&[9, 1, 7, 3, 5, 0, 8]);
    let before = v.clone();
    let mid = partition(&mut v, 2, 5, SplitRule::Below { axis: Axis::X, value: 11 });
    assert_eq!(mid, 3);
    assert_eq!(v[0], before[0]);
    assert_eq!(v[1], before[1]);
    assert_eq!(v[5], before[5]);
    assert_eq!(v[6], before[6]);
    assert_eq!(v[2].primitive_number, 3);
    swap_infos(&mut v, 0, 6);
    assert_eq!((v[0], v[6]), (before[6], before[0]));
}

#[test]
fn midpoint_and_bucket_rules() {
    let a = info(0, (0, 0, 0), (2, 2, 2)); // centroid 2
    let mid = SplitRule::Midpoint { axis: Axis::X, lo: 0, hi: 5 };
    assert!(mid.goes_first(&a)); // 4 < 5
    assert!(!SplitRule::Midpoint { axis: Axis::X, lo: 0, hi: 4 }.goes_first(&a)); // 4 < 4 fails
    let bucket = SplitRule::Bucket { axis: Axis::Y, lo: 0, hi: 24, last: 0 };
    assert!(!bucket.goes_first(&a)); // bucket 1
    assert!(SplitRule::Bucket { axis: Axis::Y, lo: 0, hi: 24, last: 1 }.goes_first(&a));
}

#[test]
fn selection_puts_the_smaller_half_first() {
    let xs = [9, 1, 7, 3, 5, 0, 8, 3, 3, 2];
    for nth in 0..xs.len() {
        let mut v = row(&xs);
        select_nth(&mut v, 0, xs.len(), nth, Axis::X);
        let left = v[..nth].iter().map(|i| i.centroid.x).max();
        let right = v[nth..].iter().map(|i| i.centroid.x).min().unwrap();
        assert!(left.map_or(true, |l| l <= right));
        assert_eq!(sorted(numbers(&v)), (0..xs.len()).collect::<Vec<_>>());
    }
    let mut same = row(&[4, 4, 4, 4, 4]);
    select_nth(&mut same, 1, 4, 2, Axis::X);
    assert_eq!(same[0].primitive_number, 0);
    assert_eq!(same[4].primitive_number, 4);
    assert_eq!(sorted(numbers(&same)), vec![0, 1, 2, 3, 4]);
}

#[test]
fn range_and_centroid_bounds() {
    let v = vec![info(0, (0, 0, 0), (2, 2, 2)), info(1, (5, -1, 0), (6, 0, 4)), info(2, (9, 9, 9), (9, 9, 9))];
    assert_eq!(range_bounds(&v, 0, 2), Bounds3i::new(Point3i::new(0, -1, 0), Point3i::new(6, 2, 4)));
    assert_eq!(range_bounds(&v, 1, 1), Bounds3i::empty());
    assert_eq!(centroid_bounds(&v, 0, 2), Bounds3i::new(Point3i::new(2, -1, 2), Point3i::new(11, 2, 4)));
    assert_eq!(centroid_bounds(&v, 2, 3), Bounds3i::new(Point3i::new(18, 18, 18), Point3i::new(18, 18, 18)));
}

fn three_records() -> Vec<BVHPrimitiveInfo> {
    vec![info(0, (-1, -1, -1), (1, 1, 1)), info(1, (9, -1, -1), (11, 1, 1)), info(2, (19, -1, -1), (21, 1, 1))]
}

#[test]
fn buckets_of_three_cubes() {
    let v = three_records();
    let buckets = fill_buckets(&v, 0, 3, Axis::X, 0, 40);
    assert_eq!(buckets.len(), 12);
    let counts: Vec<usize> = buckets.iter().map(|b| b.count).collect();
    assert_eq!(counts, vec![1, 0, 0, 0, 0, 0, 1, 0, 0, 0, 0, 1]);
    assert_eq!(buckets[6].bounds, v[1].bounds);
    assert_eq!(buckets[1].bounds, Bounds3i::empty());
    // one cube (area 24) against two in a box of 12 x 2 x 2 (area 104), either way round
    assert_eq!(best_split(&buckets), (0, 24 + 2 * 104));
}

#[test]
fn best_split_is_the_first_of_least_weight() {
    // two cubes close together and one far away: dividing before the far one is best
    let v = vec![info(0, (0, 0, 0), (2, 2, 2)), info(1, (2, 0, 0), (4, 2, 2)), info(2, (100, 0, 0), (102, 2, 2))];
    // centroids 2, 6, 202 between lo = 2 and hi = 202: buckets 0, 0, 11
    let buckets = fill_buckets(&v, 0, 3, Axis::X, 2, 202);
    assert_eq!(buckets[0].count, 2);
    assert_eq!(buckets[11].count, 1);
    // left: 2 * area(4 x 2 x 2) = 2 * 40, right: 1 * 24
    assert_eq!(best_split(&buckets), (0, 104));
}

#[test]
fn leaf_costs_against_division() {
    // keeping three costs 3; dividing costs 1/8 + 232 / 152
    assert!(!leaf_cheaper(3, 152, 232));
    // keeping one costs 1; dividing costs 1/8 + 100 / 10
    assert!(leaf_cheaper(1, 10, 100));
    // equal cost: 8 * 2 * 8 = 8 + 8 * 15
    assert!(!leaf_cheaper(2, 8, 15));
    assert!(leaf_cheaper(2, 8, 16));
}

#[test]
fn division_at_the_middle() {
    // centroids 1, 3, 5, 21: the midpoint of 1 and 21 is 11
    let mut v = row(&[10, 0, 2, 1]);
    let cb = centroid_bounds(&v, 0, 4);
    let mid = divide_at_middle(&mut v, 0, 4, Axis::X, cb.p_min.x, cb.p_max.x);
    assert_eq!(mid, 3);
    assert_eq!(v[3].primitive_number, 0);
    let mut w = row(&[10, 0, 2, 1]);
    assert_eq!(divide(&mut w, 0, 4, 1, SplitMethod::Middle), Some((3, Axis::X)));
}

#[test]
fn division_by_equal_counts() {
    let mut v = row(&[10, 0, 2, 1, 7]);
    assert_eq!(divide(&mut v, 0, 5, 1, SplitMethod::EqualCounts), Some((2, Axis::X)));
    let left: Vec<i64> = v[..2].iter().map(|i| i.centroid.x).collect();
    assert!(left.iter().all(|&c| c <= 3));
}

#[test]
fn division_by_area() {
    let mut v = three_records();
    assert_eq!(divide_by_area(&mut v, 0, 3, Axis::X, 0, 40, 1), Some(1));
    assert_eq!(v[0].primitive_number, 0);
    // fewer records than the maximum stay together
    let mut w = three_records();
    assert_eq!(divide_by_area(&mut w, 0, 3, Axis::X, 0, 40, 4), None);
    assert_eq!(numbers(&w), vec![0, 1, 2]);
    let mut u = three_records();
    assert_eq!(divide(&mut u, 0, 3, 1, SplitMethod::SAH), Some((1, Axis::X)));
    let mut t = three_records();
    assert_eq!(divide_by_buckets(&mut t, 0, 3, Axis::X, 0, 40, 8), 2);
    let mut s = three_records();
    assert_eq!(divide_always(&mut s, 0, 3), (1, Axis::X));
}

#[test]
fn division_keeps_overlapping_records_together_when_cheaper() {
    // two large boxes that nearly coincide: dividing them saves nothing
    let mut v = vec![info(0, (0, 0, 0), (100, 100, 100)), info(1, (1, 0, 0), (101, 100, 100))];
    assert_eq!(divide(&mut v, 0, 2, 1, SplitMethod::SAH), None);
    let mut total = 0;
    let node = recursive_build(&mut v, 0, 2, 1, SplitMethod::SAH, &mut total);
    assert_eq!(total, 1);
    assert_eq!(node.n_primitives, 2);
    assert_eq!(node.bounds, Bounds3i::new(Point3i::new(0, 0, 0), Point3i::new(101, 100, 100)));
}

#[test]
fn coinciding_centroids_make_a_leaf() {
    let mut v = vec![info(0, (0, 0, 0), (4, 4, 4)), info(1, (1, 1, 1), (3, 3, 3)), info(2, (2, 2, 2), (2, 2, 2))];
    for m in [SplitMethod::SAH, SplitMethod::Middle, SplitMethod::EqualCounts] {
        assert_eq!(divide(&mut v, 0, 3, 1, m), None);
    }
    assert_eq!(divide_always(&mut v, 0, 3), (1, Axis::X));
}

#[test]
fn records_without_area_are_halved_about_the_median() {
    // segments on a line: the box of all has no area
    let mut v: Vec<BVHPrimitiveInfo> =
        [7, 1, 5, 3].iter().enumerate().map(|(i, &x)| info(i, (x, 0, 0), (x + 1, 0, 0))).collect();
    assert_eq!(range_bounds(&v, 0, 4).surface_area(), 0);
    assert_eq!(divide(&mut v, 0, 4, 1, SplitMethod::SAH), Some((2, Axis::X)));
    let left: Vec<i64> = v[..2].iter().map(|i| i.centroid.x).collect();
    assert!(left.iter().all(|&c| c <= 7));
    assert!(v[2..].iter().all(|i| i.centroid.x >= 11));
    let mut w = v.clone();
    assert_eq!(divide_always(&mut w, 0, 4), (2, Axis::X));
}

#[test]
fn too_many_coinciding_records_for_a_leaf_are_halved() {
    let n = 70_000;
    for m in [SplitMethod::SAH, SplitMethod::Middle, SplitMethod::EqualCounts] {
        let mut v: Vec<BVHPrimitiveInfo> = (0..n).map(|i| info(i, (0, 0, 0), (2, 2, 2))).collect();
        assert_eq!(divide(&mut v, 0, n, 4, m), Some((n / 2, Axis::X)));
        let mut total = 0;
        let node = recursive_build(&mut v, 0, n, 4, m, &mut total);
        assert_eq!(total, 3);
        let mut l = Vec::new();
        leaves(&node, &mut l);
        assert_eq!(l, vec![(0, n / 2), (n / 2, n / 2)]);
    }
    let mut v: Vec<BVHPrimitiveInfo> = (0..n).map(|i| info(i, (0, 0, 0), (2, 2, 2))).collect();
    let mut total = 0;
    let node = hlbvh_build(&mut v, 4, &mut total);
    assert_eq!(total, 3);
    let mut l = Vec::new();
    leaves(&node, &mut l);
    assert_eq!(l, vec![(0, n / 2), (n / 2, n / 2)]);
    assert_eq!(sorted(numbers(&v)), (0..n).collect::<Vec<_>>());
}

fn leaves(node: &BVHBuildNode, out: &mut Vec<(usize, usize)>) {
    match &node.children {
        None => out.push((node.first_prim_offset, node.n_primitives)),
        Some((c0, c1)) => {
            leaves(c0, out);
            leaves(c1, out);
        }
    }
}

fn count_nodes(node: &BVHBuildNode) -> usize {
    match &node.children {
        None => 1,
        Some((c0, c1)) => 1 + count_nodes(c0) + count_nodes(c1),
    }
}

#[test]
fn recursive_build_counts_its_nodes() {
    for m in [SplitMethod::SAH, SplitMethod::Middle, SplitMethod::EqualCounts] {
        let mut v = row(&[10, 0, 2, 1, 7, 30, 31, 5]);
        let mut total = 4;
        let node = recursive_build(&mut v, 0, 8, 1, m, &mut total);
        assert_eq!(total, 4 + count_nodes(&node));
        let mut l = Vec::new();
        leaves(&node, &mut l);
        let mut next = 0;
        for (first, n) in l {
            assert_eq!(first, next);
            assert!(n >= 1);
            next += n;
        }
        assert_eq!(next, 8);
        assert_eq!(sorted(numbers(&v)), (0..8).collect::<Vec<_>>());
    }
}

#[test]
fn equal_counts_builds_a_balanced_tree() {
    let mut v = row(&[10, 0, 2, 1, 7]);
    let mut total = 0;
    let node = recursive_build(&mut v, 0, 5, 1, SplitMethod::EqualCounts, &mut total);
    assert_eq!(total, 9);
    let mut l = Vec::new();
    leaves(&node, &mut l);
    assert_eq!(l, vec![(0, 1), (1, 1), (2, 1), (3, 1), (4, 1)]);
    let (c0, c1) = node.children.as_ref().unwrap();
    assert_eq!(count_nodes(c0), 3);
    assert_eq!(count_nodes(c1), 5);
    assert_eq!(v.iter().map(|i| i.centroid.x).collect::<Vec<_>>(), vec![1, 3, 5, 15, 21]);
}

#[test]
fn recursive_build_leaves_the_rest_alone() {
    let mut v = row(&[10, 0, 2, 1, 7, 30, 31, 5]);
    let before = v.clone();
    let mut total = 0;
    let node = recursive_build(&mut v, 2, 6, 1, SplitMethod::Middle, &mut total);
    assert_eq!(&v[..2], &before[..2]);
    assert_eq!(&v[6..], &before[6..]);
    assert_eq!(node.bounds, range_bounds(&before, 2, 6));
}

#[test]
fn morton_bits_are_spread_and_interleaved() {
    assert_eq!(left_shift3(0), 0);
    assert_eq!(left_shift3(1), 1);
    assert_eq!(left_shift3(2), 8);
    assert_eq!(left_shift3(3), 9);
    assert_eq!(left_shift3(512), 1 << 27);
    assert_eq!(left_shift3(1023), 0x9249249);
    assert_eq!(encode_morton3(1, 0, 0), 1);
    assert_eq!(encode_morton3(0, 1, 0), 2);
    assert_eq!(encode_morton3(0, 0, 1), 4);
    assert_eq!(encode_morton3(5, 3, 1), 87);
    assert_eq!(encode_morton3(1023, 1023, 1023), 0x3fff_ffff);
}

#[test]
fn morton_cells_divide_the_spread_into_1024() {
    assert_eq!(morton_cell(0, 0, 100), 0);
    assert_eq!(morton_cell(50, 0, 100), 512);
    assert_eq!(morton_cell(99, 0, 100), 1013);
    assert_eq!(morton_cell(100, 0, 100), 1023);
    assert_eq!(morton_cell(7, 7, 7), 0);
    let cb = Bounds3i::new(Point3i::new(0, 0, 0), Point3i::new(100, 100, 100));
    // centroid (50, 100, 0): cells (512, 1023, 0)
    let i = info(0, (20, 50, 0), (30, 50, 0));
    assert_eq!(morton_code(&i, &cb), encode_morton3(512, 1023, 0));
    assert_eq!(morton_codes(&vec![i, i], &cb), vec![encode_morton3(512, 1023, 0); 2]);
}

#[test]
fn treelets_are_counted_ranked_and_keyed() {
    let v = row(&[0, 1, 500, 1000]);
    let cb = centroid_bounds(&v, 0, 4);
    let codes = morton_codes(&v, &cb);
    let groups = treelet_groups(&v, &codes);
    assert_eq!(groups.len(), 4096);
    assert_eq!(groups.iter().map(|g| g.count).sum::<usize>(), 4);
    let first = (codes[0] >> 18) as usize;
    assert_eq!(first, (codes[1] >> 18) as usize);
    assert_eq!(groups[first].count, 2);
    assert_eq!(groups[first].bounds, range_bounds(&v, 0, 2));
    let mut coarse = treelet_records(&groups);
    assert_eq!(coarse.len(), 3);
    assert!(coarse.windows(2).all(|w| w[0].primitive_number < w[1].primitive_number));
    assert_eq!(coarse[0].bounds, range_bounds(&v, 0, 2));
    let m = coarse.len();
    let upper = build_upper_sah(&mut coarse, 0, m);
    assert_eq!(count_nodes(&upper), 5);
    let mut l = Vec::new();
    leaves(&upper, &mut l);
    assert_eq!(l, vec![(0, 1), (1, 1), (2, 1)]);
    let ranks = treelet_ranks(&coarse);
    for (p, c) in coarse.iter().enumerate() {
        assert_eq!(ranks[c.primitive_number] as usize, p);
    }
    let keys = treelet_keys(&codes, &ranks);
    for (k, c) in keys.iter().zip(codes.iter()) {
        assert_eq!(k >> 18, ranks[(c >> 18) as usize]);
        assert_eq!(k & 0x3ffff, c & 0x3ffff);
    }
}

#[test]
fn clustered_build_covers_all_records() {
    let xs: Vec<i64> = (0..200).map(|i| (i * 7919) % 1000).collect();
    for max in [1usize, 4, 255] {
        let mut v = row(&xs);
        let mut total = 0;
        let node = hlbvh_build(&mut v, max, &mut total);
        assert_eq!(total, count_nodes(&node));
        let mut l = Vec::new();
        leaves(&node, &mut l);
        let mut next = 0;
        for (first, n) in l {
            assert_eq!(first, next);
            assert!(n >= 1);
            next += n;
        }
        assert_eq!(next, 200);
        assert_eq!(sorted(numbers(&v)), (0..200).collect::<Vec<_>>());
        assert_eq!(node.bounds, range_bounds(&v, 0, 200));
    }
}

#[test]
fn clustered_build_of_one_record_is_a_leaf() {
    let mut v = row(&[3]);
    let mut total = 0;
    let node = hlbvh_build(&mut v, 4, &mut total);
    assert_eq!(total, 1);
    assert!(node.children.is_none());
    assert_eq!((node.first_prim_offset, node.n_primitives), (0, 1));
}
