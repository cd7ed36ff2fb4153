//! The recursive builder: divides a range of primitive records into a binary
//! tree, by the midpoint, by equal counts or by the surface area heuristic.

use vstd::prelude::*;
use std::sync::Arc;
use crate::geometry::{lemma_product_bound2, Axis, Bounds3i};
use crate::bvh::common::{
    all_wf,
    boxes,
    lemma_covers_counts,
    lemma_covers_frame,
    BVHBuildNode,
    BVHPrimitiveInfo,
    BucketInfo,
    SplitMethod,
    MAX_LEAF_PRIMITIVES,
};
use crate::bvh::partition::{
    bucket_index,
    bucket_of,
    key,
    occurs,
    split_at,
    lemma_rearranged_same,
    lemma_rearranged_twice,
    lemma_rearranged_widen,
    partition,
    rearranged,
    select_nth,
    SplitRule,
    CENTROID_MAX,
    CENTROID_MIN,
    N_BUCKETS,
};

verus! {

/// The most primitives that a hierarchy can be built over: with them the
/// index of every node fits the offset of a flattened node.
pub const MAX_PRIMITIVES: usize = 0x7fff_ffff;

/// The cost of passing through an interior node is one part in
/// `TRAVERSAL_COST_DEN` of the cost of testing one primitive.
pub const TRAVERSAL_COST_DEN: u128 = 8;

/// The union of the boxes of the records from `start` up to `end`.
pub fn range_bounds(infos: &Vec<BVHPrimitiveInfo>, start: usize, end: usize) -> (b: Bounds3i)
    requires
        start <= end <= infos.len(),
        all_wf(infos@),
    ensures
        b == Bounds3i::union_of(boxes(infos@, start as int, end as int)),
        b.in_range(),
{
    let mut b = Bounds3i::empty();
    let mut i: usize = start;
    while i < end
        invariant
            start <= i <= end <= infos.len(),
            all_wf(infos@),
            b == Bounds3i::union_of(boxes(infos@, start as int, i as int)),
            b.in_range(),
        decreases end - i,
    {
        proof {
            let next = boxes(infos@, start as int, i + 1);
            assert(next.drop_last() =~= boxes(infos@, start as int, i as int));
            assert(next.last() == infos@[i as int].bounds);
            assert(infos@[i as int].wf());
        }
        b = b.union(&infos[i].bounds);
        i = i + 1;
    }
    b
}

/// The smallest box that holds the centroids of the records from `start` up
/// to `end`, for a range that is not empty.
pub open spec fn centroid_box(infos: Seq<BVHPrimitiveInfo>, start: int, end: int) -> Bounds3i
    decreases end - start,
{
    if end - start <= 1 {
        Bounds3i::of_point(infos[start].centroid)
    } else {
        centroid_box(infos, start, end - 1).union_spec(Bounds3i::of_point(infos[end - 1].centroid))
    }
}

/// The box of the centroids has centroid coordinates for corners, its
/// minimum at or below its maximum.
pub proof fn lemma_centroid_box_range(infos: Seq<BVHPrimitiveInfo>, start: int, end: int)
    requires
        0 <= start < end <= infos.len(),
        all_wf(infos),
    ensures
        centroid_box(infos, start, end).within(CENTROID_MAX),
        !centroid_box(infos, start, end).is_empty(),
    decreases end - start,
{
    assert(infos[start].wf());
    if end - start > 1 {
        assert(infos[end - 1].wf());
        lemma_centroid_box_range(infos, start, end - 1);
    }
}

/// The smallest box that holds the centroids of the records from `start` up
/// to `end`.
pub fn centroid_bounds(infos: &Vec<BVHPrimitiveInfo>, start: usize, end: usize) -> (b: Bounds3i)
    requires
        start < end <= infos.len(),
        all_wf(infos@),
    ensures
        b == centroid_box(infos@, start as int, end as int),
        b.within(CENTROID_MAX),
        !b.is_empty(),
{
    let first = infos[start].centroid;
    let mut b = Bounds3i::new(first, first);
    let mut i: usize = start + 1;
    while i < end
        invariant
            start < i <= end <= infos.len(),
            b == centroid_box(infos@, start as int, i as int),
        decreases end - i,
    {
        b = b.union_point(&infos[i].centroid);
        i = i + 1;
    }
    proof {
        lemma_centroid_box_range(infos@, start as int, end as int);
    }
    b
}

/// Twelve buckets without primitives.
pub open spec fn no_buckets() -> Seq<BucketInfo> {
    Seq::new(N_BUCKETS as nat, |i: int| BucketInfo { count: 0, bounds: Bounds3i::empty_spec() })
}

/// The buckets after the records from `start` up to `end` were sorted into
/// them by their centroid along `axis` between `lo` and `hi`: each bucket
/// counts its records and holds the union of their boxes.
pub open spec fn bucket_fill(
    infos: Seq<BVHPrimitiveInfo>,
    start: int,
    end: int,
    axis: Axis,
    lo: int,
    hi: int,
) -> Seq<BucketInfo>
    decreases end - start,
{
    if end <= start {
        no_buckets()
    } else {
        let prev = bucket_fill(infos, start, end - 1, axis, lo, hi);
        let info = infos[end - 1];
        let b = bucket_of(key(info, axis) as int, lo, hi);
        prev.update(
            b,
            BucketInfo {
                count: (prev[b].count + 1) as usize,
                bounds: prev[b].bounds.union_spec(info.bounds),
            },
        )
    }
}

/// Buckets are twelve, each within the coordinate range and with at most
/// `limit` primitives.
pub open spec fn buckets_wf(buckets: Seq<BucketInfo>, limit: int) -> bool {
    &&& buckets.len() == N_BUCKETS
    &&& forall|b: int|
        0 <= b < N_BUCKETS ==> (#[trigger] buckets[b]).count <= limit && buckets[b].bounds.in_range()
}

/// Sorts the records from `start` up to `end` into buckets.
pub fn fill_buckets(
    infos: &Vec<BVHPrimitiveInfo>,
    start: usize,
    end: usize,
    axis: Axis,
    lo: i64,
    hi: i64,
) -> (buckets: Vec<BucketInfo>)
    requires
        start <= end <= infos.len() <= MAX_PRIMITIVES,
        all_wf(infos@),
        CENTROID_MIN <= lo < hi <= CENTROID_MAX,
    ensures
        buckets@ == bucket_fill(infos@, start as int, end as int, axis, lo as int, hi as int),
        buckets_wf(buckets@, end - start),
{
    let mut buckets: Vec<BucketInfo> = Vec::new();
    let mut k: usize = 0;
    while k < N_BUCKETS
        invariant
            k <= N_BUCKETS,
            buckets.len() == k,
            forall|b: int|
                0 <= b < k ==> #[trigger] buckets@[b] == (BucketInfo {
                    count: 0,
                    bounds: Bounds3i::empty_spec(),
                }),
        decreases N_BUCKETS - k,
    {
        buckets.push(BucketInfo::default());
        k = k + 1;
    }
    assert(buckets@ =~= no_buckets());
    let mut i: usize = start;
    while i < end
        invariant
            start <= i <= end <= infos.len() <= MAX_PRIMITIVES,
            all_wf(infos@),
            CENTROID_MIN <= lo < hi <= CENTROID_MAX,
            buckets@ == bucket_fill(infos@, start as int, i as int, axis, lo as int, hi as int),
            buckets_wf(buckets@, i - start),
        decreases end - i,
    {
        let info = infos[i];
        assert(info.wf());
        let b = bucket_index(info.centroid.coord(axis), lo, hi);
        let prev = buckets[b];
        buckets[b] = BucketInfo { count: prev.count + 1, bounds: prev.bounds.union(&info.bounds) };
        i = i + 1;
    }
    buckets
}

/// The number of primitives in the buckets from `a` up to `b`.
pub open spec fn group_count(buckets: Seq<BucketInfo>, a: int, b: int) -> int
    decreases b - a,
{
    if b <= a {
        0
    } else {
        group_count(buckets, a, b - 1) + buckets[b - 1].count
    }
}

/// The union of the boxes of the buckets from `a` up to `b`.
pub open spec fn group_bounds(buckets: Seq<BucketInfo>, a: int, b: int) -> Bounds3i
    decreases b - a,
{
    if b <= a {
        Bounds3i::empty_spec()
    } else {
        group_bounds(buckets, a, b - 1).union_spec(buckets[b - 1].bounds)
    }
}

/// What dividing after bucket `i` costs beyond the fixed cost of the node,
/// times the area of the node's box: on each side the number of primitives
/// times the area of their box.
pub open spec fn split_weight(buckets: Seq<BucketInfo>, i: int) -> int {
    group_count(buckets, 0, i + 1) * group_bounds(buckets, 0, i + 1).surface_area_spec()
        + group_count(buckets, i + 1, N_BUCKETS as int) * group_bounds(
        buckets,
        i + 1,
        N_BUCKETS as int,
    ).surface_area_spec()
}

/// Count and box of the buckets from `a` up to `b`, taken together.
fn group(buckets: &Vec<BucketInfo>, a: usize, b: usize) -> (g: (u64, Bounds3i))
    requires
        a <= b <= N_BUCKETS,
        buckets_wf(buckets@, MAX_PRIMITIVES as int),
    ensures
        g.0 == group_count(buckets@, a as int, b as int),
        g.0 <= (b - a) * MAX_PRIMITIVES,
        g.1 == group_bounds(buckets@, a as int, b as int),
        g.1.in_range(),
{
    let mut count: u64 = 0;
    let mut bounds = Bounds3i::empty();
    let mut k: usize = a;
    while k < b
        invariant
            a <= k <= b <= N_BUCKETS,
            buckets_wf(buckets@, MAX_PRIMITIVES as int),
            count == group_count(buckets@, a as int, k as int),
            count <= (k - a) * MAX_PRIMITIVES,
            bounds == group_bounds(buckets@, a as int, k as int),
            bounds.in_range(),
        decreases b - k,
    {
        assert(buckets@[k as int].count <= MAX_PRIMITIVES);
        count = count + buckets[k].count as u64;
        bounds = bounds.union(&buckets[k].bounds);
        k = k + 1;
    }
    (count, bounds)
}

/// The weight of dividing after bucket `i`.
fn weigh_split(buckets: &Vec<BucketInfo>, i: usize) -> (w: u128)
    requires
        i + 1 < N_BUCKETS,
        buckets_wf(buckets@, MAX_PRIMITIVES as int),
    ensures
        w == split_weight(buckets@, i as int),
        w <= 0x100_0000_0000_0000_0000_0000_0000,
{
    let g0 = group(buckets, 0, i + 1);
    let g1 = group(buckets, i + 1, N_BUCKETS);
    let a0 = g0.1.surface_area();
    let a1 = g1.1.surface_area();
    proof {
        lemma_product_bound2(
            g0.0 as int,
            a0 as int,
            25769803764int,
            27670116110564327424int,
        );
        lemma_product_bound2(
            g1.0 as int,
            a1 as int,
            25769803764int,
            27670116110564327424int,
        );
    }
    (g0.0 as u128) * a0 + (g1.0 as u128) * a1
}

/// Dividing after bucket `best` weighs no more than dividing after any other
/// bucket, and less than dividing after any earlier one.
pub open spec fn is_best_split(buckets: Seq<BucketInfo>, best: int) -> bool {
    &&& 0 <= best < N_BUCKETS - 1
    &&& forall|i: int|
        0 <= i < N_BUCKETS - 1 ==> split_weight(buckets, best) <= #[trigger] split_weight(buckets, i)
    &&& forall|i: int|
        0 <= i < best ==> split_weight(buckets, best) < #[trigger] split_weight(buckets, i)
}

/// The bucket after which dividing weighs least, the first of them, and that
/// weight.
pub fn best_split(buckets: &Vec<BucketInfo>) -> (r: (usize, u128))
    requires
        buckets_wf(buckets@, MAX_PRIMITIVES as int),
    ensures
        is_best_split(buckets@, r.0 as int),
        r.1 == split_weight(buckets@, r.0 as int),
        r.1 <= 0x100_0000_0000_0000_0000_0000_0000,
{
    let mut best: usize = 0;
    let mut weight: u128 = weigh_split(buckets, 0);
    let mut i: usize = 1;
    while i < N_BUCKETS - 1
        invariant
            1 <= i <= N_BUCKETS - 1,
            buckets_wf(buckets@, MAX_PRIMITIVES as int),
            0 <= best < i,
            weight == split_weight(buckets@, best as int),
            weight <= 0x100_0000_0000_0000_0000_0000_0000,
            forall|k: int| 0 <= k < i ==> weight <= #[trigger] split_weight(buckets@, k),
            forall|k: int| 0 <= k < best ==> weight < #[trigger] split_weight(buckets@, k),
        decreases N_BUCKETS - i,
    {
        let w = weigh_split(buckets, i);
        if w < weight {
            best = i;
            weight = w;
        }
        i = i + 1;
    }
    (best, weight)
}

/// Keeping the `n` primitives of a node with box area `area` in one leaf costs
/// less than dividing them with weight `weight`: testing `n` primitives
/// against passing one node and then testing `weight / area` primitives.
pub open spec fn leaf_is_cheaper(n: int, area: int, weight: int) -> bool {
    TRAVERSAL_COST_DEN * n * area < area + TRAVERSAL_COST_DEN * weight
}

/// Whether a leaf costs less than the division.
pub fn leaf_cheaper(n: usize, area: u128, weight: u128) -> (b: bool)
    requires
        n <= MAX_PRIMITIVES,
        area <= crate::geometry::AREA_MAX,
        weight <= 0x100_0000_0000_0000_0000_0000_0000,
    ensures
        b == leaf_is_cheaper(n as int, area as int, weight as int),
{
    proof {
        lemma_product_bound2(8 * n as int, area as int, 17179869176int, 27670116110564327424int);
        assert(TRAVERSAL_COST_DEN * n * area == (8 * n) * area) by (nonlinear_arith);
    }
    let keep: u128 = (TRAVERSAL_COST_DEN * (n as u128)) * area;
    let divide: u128 = area + TRAVERSAL_COST_DEN * weight;
    keep < divide
}

/// Some record from `start` up to `end` has the centroid coordinate `v`
/// along `axis`.
pub open spec fn key_occurs(
    infos: Seq<BVHPrimitiveInfo>,
    start: int,
    end: int,
    axis: Axis,
    v: int,
) -> bool {
    exists|p: int| start <= p < end && key(#[trigger] infos[p], axis) == v
}

/// The box of the centroids holds every centroid of the range, and each of
/// its corner coordinates is the coordinate of some centroid.
pub proof fn lemma_centroid_box_attained(
    infos: Seq<BVHPrimitiveInfo>,
    start: int,
    end: int,
    axis: Axis,
)
    requires
        0 <= start < end <= infos.len(),
    ensures
        key_occurs(infos, start, end, axis, centroid_box(infos, start, end).p_min.get(axis) as int),
        key_occurs(infos, start, end, axis, centroid_box(infos, start, end).p_max.get(axis) as int),
        forall|p: int|
            start <= p < end ==> centroid_box(infos, start, end).p_min.get(axis) <= key(
                #[trigger] infos[p],
                axis,
            ) <= centroid_box(infos, start, end).p_max.get(axis),
    decreases end - start,
{
    if end - start <= 1 {
        assert(key(infos[start], axis) == centroid_box(infos, start, end).p_min.get(axis));
    } else {
        lemma_centroid_box_attained(infos, start, end - 1, axis);
        let before = centroid_box(infos, start, end - 1);
        let b = centroid_box(infos, start, end);
        let last = key(infos[end - 1], axis);
        let p = choose|p: int| start <= p < end - 1 && key(#[trigger] infos[p], axis) == before.p_min.get(axis);
        let q = choose|q: int| start <= q < end - 1 && key(#[trigger] infos[q], axis) == before.p_max.get(axis);
        if b.p_min.get(axis) == last {
            assert(key(infos[end - 1], axis) == b.p_min.get(axis));
        } else {
            assert(key(infos[p], axis) == b.p_min.get(axis));
        }
        if b.p_max.get(axis) == last {
            assert(key(infos[end - 1], axis) == b.p_max.get(axis));
        } else {
            assert(key(infos[q], axis) == b.p_max.get(axis));
        }
    }
}

/// The smallest centroid coordinate falls into the first bucket and the
/// largest into the last.
pub proof fn lemma_end_buckets(lo: int, hi: int)
    requires
        lo < hi,
    ensures
        bucket_of(lo, lo, hi) == 0,
        bucket_of(hi, lo, hi) == N_BUCKETS - 1,
{
    let d = hi - lo;
    assert((12 * d) / d == 12 && (12 * (lo - lo)) / d == 0) by (nonlinear_arith)
        requires
            d > 0,
    ;
}

/// How a range of records is dealt with.
pub enum Division {
    /// The records stay together in a leaf.
    Leaf,
    /// The records are halved where they stand.
    Halves { axis: Axis },
    /// The records are halved about the median of their centroids along the
    /// axis.
    Median { axis: Axis },
    /// The records that the rule takes form the first side.
    Rule { rule: SplitRule },
}

impl Division {
    /// The axis of the division; of a leaf, the first axis.
    pub open spec fn axis(self) -> Axis {
        match self {
            Division::Leaf => Axis::X,
            Division::Halves { axis } => axis,
            Division::Median { axis } => axis,
            Division::Rule { rule } => match rule {
                SplitRule::Midpoint { axis, lo, hi } => axis,
                SplitRule::Bucket { axis, lo, hi, last } => axis,
                SplitRule::Below { axis, value } => axis,
                SplitRule::AtMost { axis, value } => axis,
            },
        }
    }
}

/// The records from `start` up to `mid` are those of the range that `rule`
/// takes.
pub open spec fn sides(
    infos: Seq<BVHPrimitiveInfo>,
    start: int,
    mid: int,
    end: int,
    rule: SplitRule,
) -> bool {
    &&& forall|p: int| start <= p < mid ==> rule.takes(#[trigger] infos[p])
    &&& forall|p: int| mid <= p < end ==> !rule.takes(#[trigger] infos[p])
}

/// The arrangement `after` and the position `r` are what the division `d` of
/// the records of `before` from `start` up to `end` owes: nothing and no
/// change for a leaf; the middle position for halves, without change where
/// the records are halved as they stand, and with no larger centroid before
/// it than after it where they are halved about the median; and for a rule a
/// position strictly inside the range with the records that the rule takes
/// before it.
pub open spec fn divided_as(
    after: Seq<BVHPrimitiveInfo>,
    before: Seq<BVHPrimitiveInfo>,
    start: int,
    end: int,
    r: Option<usize>,
    d: Division,
) -> bool {
    let half = start + (end - start) / 2;
    match d {
        Division::Leaf => r is None && after == before,
        Division::Halves { axis } => r == Some(half as usize) && after == before,
        Division::Median { axis } => r == Some(half as usize) && split_at(
            after,
            start,
            half,
            end,
            axis,
        ),
        Division::Rule { rule } => r matches Some(mid) && start < mid < end && sides(
            after,
            start,
            mid as int,
            end,
            rule,
        ),
    }
}

/// The bucket after which dividing weighs least, the first of them.
pub open spec fn best_bucket(buckets: Seq<BucketInfo>) -> int {
    choose|b: int| is_best_split(buckets, b)
}

/// There is one best split only.
pub proof fn lemma_best_split_unique(buckets: Seq<BucketInfo>, a: int, b: int)
    requires
        is_best_split(buckets, a),
        is_best_split(buckets, b),
    ensures
        a == b,
{
    if a < b {
        assert(split_weight(buckets, b) < split_weight(buckets, a));
        assert(split_weight(buckets, a) <= split_weight(buckets, b));
    } else if b < a {
        assert(split_weight(buckets, a) < split_weight(buckets, b));
        assert(split_weight(buckets, b) <= split_weight(buckets, a));
    }
}

/// The rule of the best division by buckets along `axis`, between `lo` and
/// `hi`.
pub open spec fn bucket_rule(
    infos: Seq<BVHPrimitiveInfo>,
    start: int,
    end: int,
    axis: Axis,
    lo: i64,
    hi: i64,
) -> SplitRule {
    SplitRule::Bucket {
        axis,
        lo,
        hi,
        last: best_bucket(bucket_fill(infos, start, end, axis, lo as int, hi as int)) as usize,
    }
}

/// How the surface area heuristic deals with a range whose centroids spread
/// from `lo` to `hi` along `axis`.
///
/// Fewer than `max_prims_in_node` records stay together. A range whose box
/// has no area is halved about the median. Otherwise the records stay
/// together where that is cheaper than the best division by buckets, and are
/// divided after the best bucket where it is not. Records too many for a leaf
/// never stay together.
#[verifier::opaque]
pub open spec fn area_division(
    infos: Seq<BVHPrimitiveInfo>,
    start: int,
    end: int,
    axis: Axis,
    lo: i64,
    hi: i64,
    max_prims_in_node: usize,
) -> Division {
    let n = end - start;
    let area = Bounds3i::union_of(boxes(infos, start, end)).surface_area_spec();
    let buckets = bucket_fill(infos, start, end, axis, lo as int, hi as int);
    if n < max_prims_in_node && n <= MAX_LEAF_PRIMITIVES {
        Division::Leaf
    } else if area == 0 {
        Division::Median { axis }
    } else if n <= MAX_LEAF_PRIMITIVES && leaf_is_cheaper(
        n,
        area,
        split_weight(buckets, best_bucket(buckets)),
    ) {
        Division::Leaf
    } else {
        Division::Rule { rule: bucket_rule(infos, start, end, axis, lo, hi) }
    }
}

/// A division by a rule that takes the records with the smallest centroid
/// and not those with the largest leaves no side without records.
proof fn lemma_both_sides(
    after: Seq<BVHPrimitiveInfo>,
    before: Seq<BVHPrimitiveInfo>,
    start: int,
    mid: int,
    end: int,
    axis: Axis,
    rule: SplitRule,
)
    requires
        0 <= start < end <= before.len(),
        start <= mid <= end,
        rearranged(after, before, start, end),
        sides(after, start, mid, end, rule),
        forall|x: BVHPrimitiveInfo|
            key(x, axis) == centroid_box(before, start, end).p_min.get(axis) ==> rule.takes(x),
        forall|x: BVHPrimitiveInfo|
            key(x, axis) == centroid_box(before, start, end).p_max.get(axis) ==> !rule.takes(x),
    ensures
        start < mid < end,
{
    lemma_centroid_box_attained(before, start, end, axis);
    let cb = centroid_box(before, start, end);
    let p = choose|p: int| start <= p < end && key(#[trigger] before[p], axis) == cb.p_min.get(axis);
    let q = choose|q: int| start <= q < end && key(#[trigger] before[q], axis) == cb.p_max.get(axis);
    assert(occurs(after, start, end, before[p]));
    let x = choose|x: int| start <= x < end && #[trigger] after[x] == before[p];
    assert(rule.takes(after[x]));
    assert(occurs(after, start, end, before[q]));
    let y = choose|y: int| start <= y < end && #[trigger] after[y] == before[q];
    assert(!rule.takes(after[y]));
}

/// Divides the records from `start` up to `end` after the bucket of least
/// weight along `axis`, on which their centroids spread from `lo` to `hi`, and
/// gives the position where the second side begins.
pub fn divide_by_buckets(
    infos: &mut Vec<BVHPrimitiveInfo>,
    start: usize,
    end: usize,
    axis: Axis,
    lo: i64,
    hi: i64,
    best: usize,
) -> (mid: usize)
    requires
        start < end <= old(infos).len() <= MAX_PRIMITIVES,
        all_wf(old(infos)@),
        lo < hi,
        lo == centroid_box(old(infos)@, start as int, end as int).p_min.get(axis),
        hi == centroid_box(old(infos)@, start as int, end as int).p_max.get(axis),
        best < N_BUCKETS - 1,
    ensures
        rearranged(final(infos)@, old(infos)@, start as int, end as int),
        all_wf(final(infos)@),
        start < mid < end,
        sides(
            final(infos)@,
            start as int,
            mid as int,
            end as int,
            SplitRule::Bucket { axis, lo, hi, last: best },
        ),
{
    proof {
        lemma_centroid_box_range(infos@, start as int, end as int);
    }
    let rule = SplitRule::Bucket { axis, lo, hi, last: best };
    let mid = partition(infos, start, end, rule);
    proof {
        lemma_end_buckets(lo as int, hi as int);
        lemma_both_sides(infos@, old(infos)@, start as int, mid as int, end as int, axis, rule);
    }
    mid
}

/// Divides the records from `start` up to `end` by the surface area
/// heuristic along `axis`, on which their centroids spread from `lo` to `hi`,
/// as `area_division` says. Gives the position where the second side begins,
/// or nothing where the records stay together in a leaf.
pub fn divide_by_area(
    infos: &mut Vec<BVHPrimitiveInfo>,
    start: usize,
    end: usize,
    axis: Axis,
    lo: i64,
    hi: i64,
    max_prims_in_node: usize,
) -> (r: Option<usize>)
    requires
        start + 1 < end <= old(infos).len() <= MAX_PRIMITIVES,
        all_wf(old(infos)@),
        lo < hi,
        lo == centroid_box(old(infos)@, start as int, end as int).p_min.get(axis),
        hi == centroid_box(old(infos)@, start as int, end as int).p_max.get(axis),
    ensures
        rearranged(final(infos)@, old(infos)@, start as int, end as int),
        all_wf(final(infos)@),
        divided_as(
            final(infos)@,
            old(infos)@,
            start as int,
            end as int,
            r,
            area_division(old(infos)@, start as int, end as int, axis, lo, hi, max_prims_in_node),
        ),
{
    let n = end - start;
    let half = start + n / 2;
    proof {
        reveal(area_division);
        lemma_rearranged_same(infos@, start as int, end as int);
        lemma_centroid_box_range(infos@, start as int, end as int);
    }
    if n < max_prims_in_node && n <= MAX_LEAF_PRIMITIVES {
        return None;
    }
    let bounds = range_bounds(infos, start, end);
    let area = bounds.surface_area();
    if area == 0 {
        select_nth(infos, start, end, half, axis);
        return Some(half);
    }
    let buckets = fill_buckets(infos, start, end, axis, lo, hi);
    let (best, weight) = best_split(&buckets);
    proof {
        lemma_best_split_unique(buckets@, best as int, best_bucket(buckets@));
    }
    if n <= MAX_LEAF_PRIMITIVES && leaf_cheaper(n, area, weight) {
        return None;
    }
    Some(divide_by_buckets(infos, start, end, axis, lo, hi, best))
}

/// How the treelets of a range are divided: records whose centroids coincide
/// are halved where they stand, records whose box has no area about the
/// median, and all others after the best bucket along the axis on which their
/// centroids spread most.
#[verifier::opaque]
pub open spec fn always_division(infos: Seq<BVHPrimitiveInfo>, start: int, end: int) -> Division {
    let cb = centroid_box(infos, start, end);
    let axis = cb.maximum_extent_spec();
    let lo = cb.p_min.get(axis);
    let hi = cb.p_max.get(axis);
    if lo == hi {
        Division::Halves { axis }
    } else if Bounds3i::union_of(boxes(infos, start, end)).surface_area_spec() == 0 {
        Division::Median { axis }
    } else {
        Division::Rule { rule: bucket_rule(infos, start, end, axis, lo, hi) }
    }
}

/// Divides the records from `start` up to `end` as `always_division` says,
/// and gives the position where the second side begins and the axis.
pub fn divide_always(infos: &mut Vec<BVHPrimitiveInfo>, start: usize, end: usize) -> (r: (
    usize,
    Axis,
))
    requires
        start + 1 < end <= old(infos).len() <= MAX_PRIMITIVES,
        all_wf(old(infos)@),
    ensures
        rearranged(final(infos)@, old(infos)@, start as int, end as int),
        all_wf(final(infos)@),
        start < r.0 < end,
        r.1 == always_division(old(infos)@, start as int, end as int).axis(),
        divided_as(
            final(infos)@,
            old(infos)@,
            start as int,
            end as int,
            Some(r.0),
            always_division(old(infos)@, start as int, end as int),
        ),
{
    let half = start + (end - start) / 2;
    proof {
        reveal(always_division);
        lemma_rearranged_same(infos@, start as int, end as int);
    }
    let cb = centroid_bounds(infos, start, end);
    let axis = cb.maximum_extent();
    let lo = cb.p_min.coord(axis);
    let hi = cb.p_max.coord(axis);
    if lo == hi {
        return (half, axis);
    }
    let bounds = range_bounds(infos, start, end);
    if bounds.surface_area() == 0 {
        select_nth(infos, start, end, half, axis);
        return (half, axis);
    }
    let buckets = fill_buckets(infos, start, end, axis, lo, hi);
    let (best, _) = best_split(&buckets);
    proof {
        lemma_best_split_unique(buckets@, best as int, best_bucket(buckets@));
    }
    (divide_by_buckets(infos, start, end, axis, lo, hi, best), axis)
}

/// Divides the records from `start` up to `end` at the midpoint of the spread
/// of their centroids along `axis`, from `lo` to `hi`, and gives the position
/// where the second side begins. Neither side is left without records.
pub fn divide_at_middle(
    infos: &mut Vec<BVHPrimitiveInfo>,
    start: usize,
    end: usize,
    axis: Axis,
    lo: i64,
    hi: i64,
) -> (mid: usize)
    requires
        start < end <= old(infos).len(),
        all_wf(old(infos)@),
        lo < hi,
        lo == centroid_box(old(infos)@, start as int, end as int).p_min.get(axis),
        hi == centroid_box(old(infos)@, start as int, end as int).p_max.get(axis),
    ensures
        rearranged(final(infos)@, old(infos)@, start as int, end as int),
        all_wf(final(infos)@),
        start < mid < end,
        sides(
            final(infos)@,
            start as int,
            mid as int,
            end as int,
            SplitRule::Midpoint { axis, lo, hi },
        ),
{
    proof {
        lemma_centroid_box_range(infos@, start as int, end as int);
    }
    let rule = SplitRule::Midpoint { axis, lo, hi };
    let mid = partition(infos, start, end, rule);
    proof {
        lemma_both_sides(infos@, old(infos)@, start as int, mid as int, end as int, axis, rule);
    }
    mid
}

/// How a range of more than one record is dealt with.
///
/// The axis is the one on which the centroids spread most. Records whose
/// centroids coincide stay together if they fit a leaf and are halved where
/// they stand otherwise. `Middle` divides at the midpoint of the spread,
/// `EqualCounts` about the median, and the other methods as `area_division`
/// says.
#[verifier::opaque]
pub open spec fn choose_division(
    infos: Seq<BVHPrimitiveInfo>,
    start: int,
    end: int,
    max_prims_in_node: usize,
    split_method: SplitMethod,
) -> Division {
    let cb = centroid_box(infos, start, end);
    let axis = cb.maximum_extent_spec();
    let lo = cb.p_min.get(axis);
    let hi = cb.p_max.get(axis);
    if lo == hi {
        if end - start <= MAX_LEAF_PRIMITIVES {
            Division::Leaf
        } else {
            Division::Halves { axis }
        }
    } else {
        match split_method {
            SplitMethod::Middle => Division::Rule { rule: SplitRule::Midpoint { axis, lo, hi } },
            SplitMethod::EqualCounts => Division::Median { axis },
            _ => area_division(infos, start, end, axis, lo, hi, max_prims_in_node),
        }
    }
}

/// Decides how the records from `start` up to `end` are dealt with, as
/// `choose_division` says, and rearranges them accordingly.
///
/// Gives the position where the second side begins and the axis of the
/// division, or nothing where the records stay together in a leaf.
pub fn divide(
    infos: &mut Vec<BVHPrimitiveInfo>,
    start: usize,
    end: usize,
    max_prims_in_node: usize,
    split_method: SplitMethod,
) -> (r: Option<(usize, Axis)>)
    requires
        start + 1 < end <= old(infos).len() <= MAX_PRIMITIVES,
        all_wf(old(infos)@),
    ensures
        rearranged(final(infos)@, old(infos)@, start as int, end as int),
        all_wf(final(infos)@),
        divided_as(
            final(infos)@,
            old(infos)@,
            start as int,
            end as int,
            match r {
                Some((mid, axis)) => Some(mid),
                None => None,
            },
            choose_division(old(infos)@, start as int, end as int, max_prims_in_node, split_method),
        ),
        match r {
            Some((mid, axis)) => start < mid < end && axis == choose_division(
                old(infos)@,
                start as int,
                end as int,
                max_prims_in_node,
                split_method,
            ).axis() && (split_method == SplitMethod::EqualCounts ==> mid == start + (end - start)
                / 2),
            None => end - start <= MAX_LEAF_PRIMITIVES,
        },
{
    let n = end - start;
    let half = start + n / 2;
    proof {
        reveal(choose_division);
        reveal(area_division);
        lemma_rearranged_same(infos@, start as int, end as int);
    }
    let cb = centroid_bounds(infos, start, end);
    let axis = cb.maximum_extent();
    let lo = cb.p_min.coord(axis);
    let hi = cb.p_max.coord(axis);
    if lo == hi {
        if n <= MAX_LEAF_PRIMITIVES {
            None
        } else {
            Some((half, axis))
        }
    } else {
        match split_method {
            SplitMethod::Middle => {
                let mid = divide_at_middle(infos, start, end, axis, lo, hi);
                Some((mid, axis))
            },
            SplitMethod::EqualCounts => {
                select_nth(infos, start, end, half, axis);
                Some((half, axis))
            },
            _ => {
                match divide_by_area(infos, start, end, axis, lo, hi, max_prims_in_node) {
                    Some(mid) => Some((mid, axis)),
                    None => None,
                }
            },
        }
    }
}

/// `divided` is an arrangement that the division `d` of the records of
/// `given` from `start` up to `end` owes, with the second side beginning at
/// `mid`; and `first` is `divided` with its first side rearranged.
pub open spec fn arranged(
    given: Seq<BVHPrimitiveInfo>,
    divided: Seq<BVHPrimitiveInfo>,
    first: Seq<BVHPrimitiveInfo>,
    start: int,
    mid: int,
    end: int,
    d: Division,
) -> bool {
    &&& rearranged(divided, given, start, end)
    &&& divided_as(divided, given, start, end, Some(mid as usize), d)
    &&& rearranged(first, divided, start, mid)
}

/// The tree `node` is what the recursive builder makes of the records of
/// `given` from `start` up to `end`.
///
/// A single record is a leaf, and so is a range that `choose_division` keeps
/// together. Any other range is an interior node along the axis of its
/// division: the records were rearranged as the division owes, the first
/// child was built from the first side, and the second child from the second
/// side as the first build left it.
pub open spec fn built_from(
    node: &BVHBuildNode,
    given: Seq<BVHPrimitiveInfo>,
    start: int,
    end: int,
    max_prims_in_node: usize,
    split_method: SplitMethod,
) -> bool
    decreases node,
{
    let d = choose_division(given, start, end, max_prims_in_node, split_method);
    if end - start <= 1 || d is Leaf {
        node.children is None
    } else {
        match node.children {
            None => false,
            Some((c0, c1)) => {
                let mid = start + c0.count();
                &&& node.split_axis == d.axis()
                &&& exists|divided: Seq<BVHPrimitiveInfo>, first: Seq<BVHPrimitiveInfo>|
                    {
                        &&& #[trigger] arranged(given, divided, first, start, mid, end, d)
                        &&& built_from(&c0, divided, start, mid, max_prims_in_node, split_method)
                        &&& built_from(&c1, first, mid, end, max_prims_in_node, split_method)
                    }
            },
        }
    }
}

/// An interior node over two children that were built from the two sides of
/// a division is built from the range.
proof fn lemma_built_interior(
    node: &BVHBuildNode,
    c0: &BVHBuildNode,
    c1: &BVHBuildNode,
    given: Seq<BVHPrimitiveInfo>,
    divided: Seq<BVHPrimitiveInfo>,
    first: Seq<BVHPrimitiveInfo>,
    start: int,
    mid: int,
    end: int,
    max_prims_in_node: usize,
    split_method: SplitMethod,
)
    requires
        node.children matches Some((n0, n1)) && *n0 == *c0 && *n1 == *c1,
        end - start > 1,
        0 <= mid <= usize::MAX,
        !(choose_division(given, start, end, max_prims_in_node, split_method) is Leaf),
        node.split_axis == choose_division(
            given,
            start,
            end,
            max_prims_in_node,
            split_method,
        ).axis(),
        c0.count() == mid - start,
        rearranged(divided, given, start, end),
        divided_as(
            divided,
            given,
            start,
            end,
            Some(mid as usize),
            choose_division(given, start, end, max_prims_in_node, split_method),
        ),
        built_from(c0, divided, start, mid, max_prims_in_node, split_method),
        rearranged(first, divided, start, mid),
        built_from(c1, first, mid, end, max_prims_in_node, split_method),
    ensures
        built_from(node, given, start, end, max_prims_in_node, split_method),
{
    let d = choose_division(given, start, end, max_prims_in_node, split_method);
    assert(arranged(given, divided, first, start, mid, end, d));
    match node.children {
        Some((n0, n1)) => {
            assert(start + n0.count() == mid);
            assert(built_from(&n0, divided, start, mid, max_prims_in_node, split_method));
            assert(built_from(&n1, first, mid, end, max_prims_in_node, split_method));
        },
        None => {},
    }
}

/// Builds the subtree over the records from `start` up to `end`, rearranging
/// them within the range, and adds the number of its nodes to `total_nodes`.
///
/// A single record becomes a leaf; a longer range becomes a leaf or an
/// interior node over its two sides as `divide` decides.
#[verifier::rlimit(40)]
pub fn recursive_build(
    infos: &mut Vec<BVHPrimitiveInfo>,
    start: usize,
    end: usize,
    max_prims_in_node: usize,
    split_method: SplitMethod,
    total_nodes: &mut usize,
) -> (node: Arc<BVHBuildNode>)
    requires
        start < end <= old(infos).len() <= MAX_PRIMITIVES,
        all_wf(old(infos)@),
        *old(total_nodes) + 2 * (end - start) <= usize::MAX,
    ensures
        rearranged(final(infos)@, old(infos)@, start as int, end as int),
        all_wf(final(infos)@),
        node.covers(final(infos)@, start as int),
        node.count() == end - start,
        *final(total_nodes) == *old(total_nodes) + node.node_count(),
        built_from(&node, old(infos)@, start as int, end as int, max_prims_in_node, split_method),
        split_method == SplitMethod::EqualCounts ==> node.halved(),
    decreases end - start,
{
    let n = end - start;
    *total_nodes = *total_nodes + 1;
    if n == 1 {
        proof {
            lemma_rearranged_same(infos@, start as int, end as int);
        }
        let bounds = range_bounds(infos, start, end);
        return BVHBuildNode::new_leaf_node(start, n, bounds);
    }
    match divide(infos, start, end, max_prims_in_node, split_method) {
        None => {
            let bounds = range_bounds(infos, start, end);
            BVHBuildNode::new_leaf_node(start, n, bounds)
        },
        Some((mid, axis)) => {
            let ghost divided = infos@;
            let c0 = recursive_build(
                infos,
                start,
                mid,
                max_prims_in_node,
                split_method,
                total_nodes,
            );
            let ghost first_built = infos@;
            proof {
                lemma_covers_counts(&c0, first_built, start as int);
            }
            let c1 = recursive_build(infos, mid, end, max_prims_in_node, split_method, total_nodes);
            proof {
                lemma_covers_counts(&c1, infos@, mid as int);
                lemma_covers_frame(&c0, first_built, infos@, start as int);
                lemma_rearranged_widen(
                    first_built,
                    divided,
                    start as int,
                    mid as int,
                    start as int,
                    end as int,
                );
                lemma_rearranged_widen(
                    infos@,
                    first_built,
                    mid as int,
                    end as int,
                    start as int,
                    end as int,
                );
                lemma_rearranged_twice(infos@, first_built, divided, start as int, end as int);
                lemma_rearranged_twice(infos@, divided, old(infos)@, start as int, end as int);
            }
            let ghost g0 = c0;
            let ghost g1 = c1;
            let node = BVHBuildNode::new_interior_node(axis, c0, c1);
            proof {
                lemma_built_interior(
                    &node,
                    &g0,
                    &g1,
                    old(infos)@,
                    divided,
                    first_built,
                    start as int,
                    mid as int,
                    end as int,
                    max_prims_in_node,
                    split_method,
                );
            }
            node
        },
    }
}

} // verus!
