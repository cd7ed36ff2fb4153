//! The clustered builder: primitives are grouped into treelets by the leading
//! bits of the Morton codes of their centroids, each treelet is divided by
//! the bits that follow, and the treelets are joined by the surface area
//! heuristic.

use vstd::prelude::*;
use std::sync::Arc;
use crate::geometry::{Axis, Bounds3i};
use crate::bvh::common::{
    all_wf,
    lemma_covers_counts,
    lemma_covers_frame,
    BVHBuildNode,
    BVHPrimitiveInfo,
    BucketInfo,
    MAX_LEAF_PRIMITIVES,
};
use crate::bvh::morton::{
    attached,
    bit_clear,
    code_of,
    lemma_keys_drawn,
    lemma_keys_unmoved,
    lemma_sides,
    lemma_uniform_kept,
    morton_code,
    partition_by_bit,
    sort_by_bits,
    sorted_above,
    uniform,
    MAX_TREELETS,
    TREELET_SHIFT,
};
use crate::bvh::partition::{
    lemma_rearranged_same,
    lemma_rearranged_twice,
    lemma_rearranged_wf,
    lemma_rearranged_widen,
    numbers_distinct,
    occurs,
    rearranged,
};
use crate::bvh::recursive::{
    always_division,
    arranged,
    centroid_bounds,
    centroid_box,
    divide_always,
    range_bounds,
    MAX_PRIMITIVES,
};

verus! {

/// The axis that a bit of a Morton code belongs to.
pub open spec fn axis_of_bit(bit: u32) -> Axis {
    if bit % 3 == 0 {
        Axis::X
    } else if bit % 3 == 1 {
        Axis::Y
    } else {
        Axis::Z
    }
}

/// The axis that a bit of a Morton code belongs to.
fn bit_axis(bit: u32) -> (a: Axis)
    ensures
        a == axis_of_bit(bit),
{
    let r = bit % 3;
    if r == 0 {
        Axis::X
    } else if r == 1 {
        Axis::Y
    } else {
        Axis::Z
    }
}

/// The keys of the records from `start` up to `end` all have bit `bit` clear,
/// or all have it set.
pub open spec fn same_bit(
    infos: Seq<BVHPrimitiveInfo>,
    f: spec_fn(BVHPrimitiveInfo) -> u32,
    start: int,
    end: int,
    bit: u32,
) -> bool {
    forall|i: int|
        start <= i < end ==> bit_clear(f(#[trigger] infos[i]), bit) == bit_clear(
            f(infos[start]),
            bit,
        )
}

/// The records from `start` up to `mid` are those of the range whose key has
/// bit `bit` clear.
pub open spec fn key_sides(
    infos: Seq<BVHPrimitiveInfo>,
    f: spec_fn(BVHPrimitiveInfo) -> u32,
    start: int,
    mid: int,
    end: int,
    bit: u32,
) -> bool {
    &&& forall|p: int| start <= p < mid ==> bit_clear(f(#[trigger] infos[p]), bit)
    &&& forall|p: int| mid <= p < end ==> !bit_clear(f(#[trigger] infos[p]), bit)
}

/// `divided` is `given` with the records of the range divided by bit `bit` of
/// their keys at `mid`, and `first` is `divided` with its first side
/// rearranged.
pub open spec fn key_arranged(
    given: Seq<BVHPrimitiveInfo>,
    divided: Seq<BVHPrimitiveInfo>,
    first: Seq<BVHPrimitiveInfo>,
    f: spec_fn(BVHPrimitiveInfo) -> u32,
    start: int,
    mid: int,
    end: int,
    bit: u32,
) -> bool {
    &&& rearranged(divided, given, start, end)
    &&& key_sides(divided, f, start, mid, end, bit)
    &&& rearranged(first, divided, start, mid)
}

/// The tree `node` is what dividing by bits makes of the records of `given`
/// from `start` up to `end`, with `bits_left` bits of their keys left.
///
/// A single record is a leaf. So are records fewer than `max_prims_in_node`,
/// and records without a bit left, where they fit a leaf; records without a
/// bit left that do not fit are halved where they stand, along the first
/// axis. Otherwise the highest bit that is left decides: where the keys agree
/// in it, the tree is what the bits below it make of the records; where they
/// do not, it is an interior node along the axis of the bit, whose first
/// child is made of the records with the bit clear and whose second child of
/// the others, both by the bits below.
pub open spec fn emitted_from(
    node: &BVHBuildNode,
    given: Seq<BVHPrimitiveInfo>,
    f: spec_fn(BVHPrimitiveInfo) -> u32,
    start: int,
    end: int,
    bits_left: u32,
    max_prims_in_node: usize,
) -> bool
    decreases bits_left, end - start,
{
    let n = end - start;
    if n <= 1 || (n <= MAX_LEAF_PRIMITIVES && (bits_left == 0 || n < max_prims_in_node)) {
        node.children is None
    } else if bits_left == 0 {
        let mid = start + n / 2;
        match node.children {
            None => false,
            Some((c0, c1)) => {
                &&& node.split_axis == Axis::X
                &&& emitted_from(&c0, given, f, start, mid, 0, max_prims_in_node)
                &&& exists|first: Seq<BVHPrimitiveInfo>|
                    #[trigger] rearranged(first, given, start, mid) && emitted_from(
                        &c1,
                        first,
                        f,
                        mid,
                        end,
                        0,
                        max_prims_in_node,
                    )
            },
        }
    } else {
        let bit = (bits_left - 1) as u32;
        if same_bit(given, f, start, end, bit) {
            exists|divided: Seq<BVHPrimitiveInfo>|
                #[trigger] rearranged(divided, given, start, end) && emitted_from(
                    node,
                    divided,
                    f,
                    start,
                    end,
                    bit,
                    max_prims_in_node,
                )
        } else {
            match node.children {
                None => false,
                Some((c0, c1)) => {
                    let mid = start + c0.count();
                    &&& node.split_axis == axis_of_bit(bit)
                    &&& exists|divided: Seq<BVHPrimitiveInfo>, first: Seq<BVHPrimitiveInfo>|
                        {
                            &&& #[trigger] key_arranged(
                                given,
                                divided,
                                first,
                                f,
                                start,
                                mid,
                                end,
                                bit,
                            )
                            &&& emitted_from(&c0, divided, f, start, mid, bit, max_prims_in_node)
                            &&& emitted_from(&c1, first, f, mid, end, bit, max_prims_in_node)
                        }
                },
            }
        }
    }
}

/// After a range was divided by a bit, the keys of the range agreed in the bit
/// exactly if one side is without records.
proof fn lemma_same_bit_sides(
    given: Seq<BVHPrimitiveInfo>,
    divided: Seq<BVHPrimitiveInfo>,
    f: spec_fn(BVHPrimitiveInfo) -> u32,
    start: int,
    mid: int,
    end: int,
    bit: u32,
)
    requires
        0 <= start < end <= given.len(),
        start <= mid <= end,
        rearranged(divided, given, start, end),
        key_sides(divided, f, start, mid, end, bit),
    ensures
        same_bit(given, f, start, end, bit) <==> (mid == start || mid == end),
{
    if mid == start || mid == end {
        assert forall|i: int| start <= i < end implies bit_clear(f(#[trigger] given[i]), bit)
            == bit_clear(f(given[start]), bit) by {
            assert(occurs(divided, start, end, given[i]));
            let x = choose|x: int| start <= x < end && #[trigger] divided[x] == given[i];
            assert(occurs(divided, start, end, given[start]));
            let y = choose|y: int| start <= y < end && #[trigger] divided[y] == given[start];
        }
    } else {
        assert(occurs(given, start, end, divided[start]));
        let a = choose|a: int| start <= a < end && #[trigger] given[a] == divided[start];
        assert(occurs(given, start, end, divided[mid]));
        let b = choose|b: int| start <= b < end && #[trigger] given[b] == divided[mid];
        assert(bit_clear(f(given[a]), bit));
        assert(!bit_clear(f(given[b]), bit));
    }
}

/// An interior node over the trees of the two halves of records without a bit
/// left is what dividing by bits makes of them.
proof fn lemma_emitted_halves(
    node: &BVHBuildNode,
    c0: &BVHBuildNode,
    c1: &BVHBuildNode,
    given: Seq<BVHPrimitiveInfo>,
    first: Seq<BVHPrimitiveInfo>,
    f: spec_fn(BVHPrimitiveInfo) -> u32,
    start: int,
    end: int,
    max_prims_in_node: usize,
)
    requires
        node.children matches Some((n0, n1)) && *n0 == *c0 && *n1 == *c1,
        node.split_axis == Axis::X,
        end - start > MAX_LEAF_PRIMITIVES,
        emitted_from(c0, given, f, start, start + (end - start) / 2, 0, max_prims_in_node),
        rearranged(first, given, start, start + (end - start) / 2),
        emitted_from(c1, first, f, start + (end - start) / 2, end, 0, max_prims_in_node),
    ensures
        emitted_from(node, given, f, start, end, 0, max_prims_in_node),
{
    let mid = start + (end - start) / 2;
    match node.children {
        Some((n0, n1)) => {
            assert(emitted_from(&n0, given, f, start, mid, 0, max_prims_in_node));
            assert(emitted_from(&n1, first, f, mid, end, 0, max_prims_in_node));
        },
        None => {},
    }
}

/// An interior node over the trees of the two sides of a division by a bit is
/// what dividing by bits makes of the records.
proof fn lemma_emitted_sides(
    node: &BVHBuildNode,
    c0: &BVHBuildNode,
    c1: &BVHBuildNode,
    given: Seq<BVHPrimitiveInfo>,
    divided: Seq<BVHPrimitiveInfo>,
    first: Seq<BVHPrimitiveInfo>,
    f: spec_fn(BVHPrimitiveInfo) -> u32,
    start: int,
    mid: int,
    end: int,
    bits_left: u32,
    max_prims_in_node: usize,
)
    requires
        node.children matches Some((n0, n1)) && *n0 == *c0 && *n1 == *c1,
        bits_left > 0,
        node.split_axis == axis_of_bit((bits_left - 1) as u32),
        end - start > 1,
        !(end - start <= MAX_LEAF_PRIMITIVES && end - start < max_prims_in_node),
        !same_bit(given, f, start, end, (bits_left - 1) as u32),
        c0.count() == mid - start,
        key_arranged(given, divided, first, f, start, mid, end, (bits_left - 1) as u32),
        emitted_from(c0, divided, f, start, mid, (bits_left - 1) as u32, max_prims_in_node),
        emitted_from(c1, first, f, mid, end, (bits_left - 1) as u32, max_prims_in_node),
    ensures
        emitted_from(node, given, f, start, end, bits_left, max_prims_in_node),
{
    let bit = (bits_left - 1) as u32;
    match node.children {
        Some((n0, n1)) => {
            assert(start + n0.count() == mid);
            assert(emitted_from(&n0, divided, f, start, mid, bit, max_prims_in_node));
            assert(emitted_from(&n1, first, f, mid, end, bit, max_prims_in_node));
        },
        None => {},
    }
}

/// Builds the subtree over the records from `start` up to `end`, whose keys
/// agree above their low `bits_left` bits, by dividing them by one bit after
/// the other, from the highest of those bits down, as `emitted_from` says.
#[verifier::rlimit(40)]
pub fn emit_lbvh(
    infos: &mut Vec<BVHPrimitiveInfo>,
    keys: &mut Vec<u32>,
    start: usize,
    end: usize,
    bits_left: u32,
    max_prims_in_node: usize,
    total_nodes: &mut usize,
    Ghost(f): Ghost<spec_fn(BVHPrimitiveInfo) -> u32>,
) -> (node: Arc<BVHBuildNode>)
    requires
        start < end <= old(infos).len() <= MAX_PRIMITIVES,
        all_wf(old(infos)@),
        attached(old(infos)@, old(keys)@, f),
        bits_left <= 30,
        uniform(old(keys)@, start as int, end as int, bits_left),
        *old(total_nodes) + 2 * (end - start) <= usize::MAX,
    ensures
        rearranged(final(infos)@, old(infos)@, start as int, end as int),
        all_wf(final(infos)@),
        attached(final(infos)@, final(keys)@, f),
        node.covers(final(infos)@, start as int),
        node.count() == end - start,
        *final(total_nodes) == *old(total_nodes) + node.node_count(),
        emitted_from(&node, old(infos)@, f, start as int, end as int, bits_left, max_prims_in_node),
    decreases bits_left, end - start,
{
    let n = end - start;
    proof {
        lemma_rearranged_same(infos@, start as int, end as int);
    }
    if n == 1 || (n <= MAX_LEAF_PRIMITIVES && (bits_left == 0 || n < max_prims_in_node)) {
        *total_nodes = *total_nodes + 1;
        let bounds = range_bounds(infos, start, end);
        return BVHBuildNode::new_leaf_node(start, n, bounds);
    }
    if bits_left == 0 {
        let mid = start + n / 2;
        *total_nodes = *total_nodes + 1;
        let c0 = emit_lbvh(infos, keys, start, mid, 0, max_prims_in_node, total_nodes, Ghost(f));
        let ghost first = infos@;
        let ghost first_keys = keys@;
        proof {
            lemma_covers_counts(&c0, first, start as int);
            lemma_keys_unmoved(first, first_keys, old(infos)@, old(keys)@, f, start as int, mid as int);
            assert forall|i: int, j: int| mid <= i < end && mid <= j < end implies (
            #[trigger] first_keys[i]) >> 0u32 == (#[trigger] first_keys[j]) >> 0u32 by {
                assert(first_keys[i] == old(keys)@[i] && first_keys[j] == old(keys)@[j]);
            }
        }
        let c1 = emit_lbvh(infos, keys, mid, end, 0, max_prims_in_node, total_nodes, Ghost(f));
        proof {
            lemma_covers_counts(&c1, infos@, mid as int);
            lemma_covers_frame(&c0, first, infos@, start as int);
            lemma_rearranged_widen(first, old(infos)@, start as int, mid as int, start as int, end as int);
            lemma_rearranged_widen(infos@, first, mid as int, end as int, start as int, end as int);
            lemma_rearranged_twice(infos@, first, old(infos)@, start as int, end as int);
        }
        let ghost g0 = c0;
        let ghost g1 = c1;
        let node = BVHBuildNode::new_interior_node(Axis::X, c0, c1);
        proof {
            lemma_emitted_halves(
                &node,
                &g0,
                &g1,
                old(infos)@,
                first,
                f,
                start as int,
                end as int,
                max_prims_in_node,
            );
        }
        return node;
    }
    let bit = bits_left - 1;
    let mid = partition_by_bit(infos, keys, start, end, bit, Ghost(f));
    let ghost divided = infos@;
    let ghost divided_keys = keys@;
    proof {
        lemma_rearranged_wf(infos@, old(infos)@, start as int, end as int);
        lemma_uniform_kept(
            infos@,
            keys@,
            old(infos)@,
            old(keys)@,
            f,
            start as int,
            end as int,
            bits_left,
        );
        lemma_sides(keys@, start as int, mid as int, end as int, bit);
        assert(key_sides(divided, f, start as int, mid as int, end as int, bit)) by {
            assert forall|p: int| start <= p < mid implies bit_clear(f(#[trigger] divided[p]), bit) by {
                assert(bit_clear(divided_keys[p], bit));
            }
            assert forall|p: int| mid <= p < end implies !bit_clear(f(#[trigger] divided[p]), bit) by {
                assert(!bit_clear(divided_keys[p], bit));
            }
        }
        lemma_same_bit_sides(old(infos)@, divided, f, start as int, mid as int, end as int, bit);
    }
    if mid == start || mid == end {
        let node = emit_lbvh(infos, keys, start, end, bit, max_prims_in_node, total_nodes, Ghost(f));
        proof {
            lemma_rearranged_twice(infos@, divided, old(infos)@, start as int, end as int);
        }
        return node;
    }
    *total_nodes = *total_nodes + 1;
    let c0 = emit_lbvh(infos, keys, start, mid, bit, max_prims_in_node, total_nodes, Ghost(f));
    let ghost first = infos@;
    let ghost first_keys = keys@;
    proof {
        lemma_covers_counts(&c0, first, start as int);
        lemma_keys_unmoved(first, first_keys, divided, divided_keys, f, start as int, mid as int);
        assert forall|i: int, j: int| mid <= i < end && mid <= j < end implies (
        #[trigger] first_keys[i]) >> bit == (#[trigger] first_keys[j]) >> bit by {
            assert(first_keys[i] == divided_keys[i] && first_keys[j] == divided_keys[j]);
        }
    }
    let c1 = emit_lbvh(infos, keys, mid, end, bit, max_prims_in_node, total_nodes, Ghost(f));
    proof {
        lemma_covers_counts(&c1, infos@, mid as int);
        lemma_covers_frame(&c0, first, infos@, start as int);
        lemma_rearranged_widen(first, divided, start as int, mid as int, start as int, end as int);
        lemma_rearranged_widen(infos@, first, mid as int, end as int, start as int, end as int);
        lemma_rearranged_twice(infos@, first, divided, start as int, end as int);
        lemma_rearranged_twice(infos@, divided, old(infos)@, start as int, end as int);
    }
    let ghost g0 = c0;
    let ghost g1 = c1;
    let node = BVHBuildNode::new_interior_node(bit_axis(bit), c0, c1);
    proof {
        lemma_emitted_sides(
            &node,
            &g0,
            &g1,
            old(infos)@,
            divided,
            first,
            f,
            start as int,
            mid as int,
            end as int,
            bits_left,
            max_prims_in_node,
        );
    }
    node
}

/// The Morton codes of all records, within the box `cb` of their centroids.
pub fn morton_codes(infos: &Vec<BVHPrimitiveInfo>, cb: &Bounds3i) -> (codes: Vec<u32>)
    requires
        all_wf(infos@),
        cb.within(crate::bvh::partition::CENTROID_MAX),
    ensures
        codes.len() == infos.len(),
        forall|i: int|
            0 <= i < infos.len() ==> #[trigger] codes@[i] == code_of(infos@[i], *cb) && codes@[i]
                < 0x4000_0000,
{
    let mut codes: Vec<u32> = Vec::with_capacity(infos.len());
    let mut i: usize = 0;
    while i < infos.len()
        invariant
            i <= infos.len(),
            codes.len() == i,
            all_wf(infos@),
            cb.within(crate::bvh::partition::CENTROID_MAX),
            forall|k: int|
                0 <= k < i ==> #[trigger] codes@[k] == code_of(infos@[k], *cb) && codes@[k]
                    < 0x4000_0000,
        decreases infos.len() - i,
    {
        assert(infos@[i as int].wf());
        codes.push(morton_code(&infos[i], cb));
        i = i + 1;
    }
    codes
}

/// The treelet of a Morton code: its leading bits.
pub open spec fn treelet_of(code: u32) -> u32 {
    code >> TREELET_SHIFT
}

/// A code of thirty bits has a treelet below `MAX_TREELETS`.
proof fn lemma_treelet_range(code: u32)
    by (bit_vector)
    requires
        code < 0x4000_0000,
    ensures
        code >> 18 < 4096,
{
}

/// For each treelet the number of the records with codes in it and the union
/// of their boxes, after the first `k` records were counted.
pub open spec fn treelet_fill(infos: Seq<BVHPrimitiveInfo>, codes: Seq<u32>, k: int) -> Seq<
    BucketInfo,
>
    decreases k,
{
    if k <= 0 {
        Seq::new(
            MAX_TREELETS as nat,
            |t: int| BucketInfo { count: 0, bounds: Bounds3i::empty_spec() },
        )
    } else {
        let prev = treelet_fill(infos, codes, k - 1);
        let t = treelet_of(codes[k - 1]) as int;
        prev.update(
            t,
            BucketInfo {
                count: (prev[t].count + 1) as usize,
                bounds: prev[t].bounds.union_spec(infos[k - 1].bounds),
            },
        )
    }
}

/// Counts the records of each treelet and unites their boxes.
pub fn treelet_groups(infos: &Vec<BVHPrimitiveInfo>, codes: &Vec<u32>) -> (groups: Vec<BucketInfo>)
    requires
        infos.len() <= MAX_PRIMITIVES,
        all_wf(infos@),
        codes.len() == infos.len(),
        forall|i: int| 0 <= i < codes.len() ==> #[trigger] codes@[i] < 0x4000_0000,
    ensures
        groups@ == treelet_fill(infos@, codes@, infos.len() as int),
        groups.len() == MAX_TREELETS,
        forall|t: int| 0 <= t < MAX_TREELETS ==> (#[trigger] groups@[t]).bounds.in_range(),
        forall|t: int|
            0 <= t < MAX_TREELETS && (#[trigger] groups@[t]).count > 0 ==> exists|i: int|
                0 <= i < codes.len() && treelet_of(#[trigger] codes@[i]) == t,
        forall|i: int|
            0 <= i < codes.len() ==> groups@[treelet_of(#[trigger] codes@[i]) as int].count > 0,
{
    let mut groups: Vec<BucketInfo> = Vec::with_capacity(MAX_TREELETS);
    let mut t: usize = 0;
    while t < MAX_TREELETS
        invariant
            t <= MAX_TREELETS,
            groups.len() == t,
            forall|u: int|
                0 <= u < t ==> #[trigger] groups@[u] == (BucketInfo {
                    count: 0,
                    bounds: Bounds3i::empty_spec(),
                }),
        decreases MAX_TREELETS - t,
    {
        groups.push(BucketInfo::default());
        t = t + 1;
    }
    assert(groups@ =~= treelet_fill(infos@, codes@, 0));
    let mut k: usize = 0;
    while k < infos.len()
        invariant
            k <= infos.len() <= MAX_PRIMITIVES,
            all_wf(infos@),
            codes.len() == infos.len(),
            forall|i: int| 0 <= i < codes.len() ==> #[trigger] codes@[i] < 0x4000_0000,
            groups@ == treelet_fill(infos@, codes@, k as int),
            groups.len() == MAX_TREELETS,
            forall|u: int|
                0 <= u < MAX_TREELETS ==> (#[trigger] groups@[u]).bounds.in_range() && groups@[u].count
                    <= k,
            forall|u: int|
                0 <= u < MAX_TREELETS && (#[trigger] groups@[u]).count > 0 ==> exists|i: int|
                    0 <= i < k && treelet_of(#[trigger] codes@[i]) == u,
            forall|i: int| 0 <= i < k ==> groups@[treelet_of(#[trigger] codes@[i]) as int].count > 0,
        decreases infos.len() - k,
    {
        let code = codes[k];
        proof {
            lemma_treelet_range(code);
            assert(infos@[k as int].wf());
        }
        let u = (code >> TREELET_SHIFT) as usize;
        let prev = groups[u];
        let ghost before = groups@;
        groups[u] = BucketInfo {
            count: prev.count + 1,
            bounds: prev.bounds.union(&infos[k].bounds),
        };
        proof {
            assert forall|v: int|
                0 <= v < MAX_TREELETS && (#[trigger] groups@[v]).count > 0 implies exists|i: int|
                0 <= i < k + 1 && treelet_of(#[trigger] codes@[i]) == v by {
                if v == u {
                    assert(treelet_of(codes@[k as int]) == v);
                } else {
                    assert(before[v].count > 0);
                    let i = choose|i: int| 0 <= i < k && treelet_of(#[trigger] codes@[i]) == v;
                    assert(treelet_of(codes@[i]) == v);
                }
            }
            assert forall|i: int| 0 <= i < k + 1 implies groups@[treelet_of(
                #[trigger] codes@[i],
            ) as int].count > 0 by {
                lemma_treelet_range(codes@[i]);
                if i < k {
                    assert(before[treelet_of(codes@[i]) as int].count > 0);
                }
            }
        }
        k = k + 1;
    }
    groups
}

/// The record of treelet `t` with the box `bounds`.
pub open spec fn record_of(t: int, bounds: Bounds3i) -> BVHPrimitiveInfo {
    BVHPrimitiveInfo {
        primitive_number: t as usize,
        bounds,
        centroid: crate::geometry::Point3i {
            x: (bounds.p_min.x + bounds.p_max.x) as i64,
            y: (bounds.p_min.y + bounds.p_max.y) as i64,
            z: (bounds.p_min.z + bounds.p_max.z) as i64,
        },
    }
}

/// One record for each of the first `t` treelets that holds primitives, in
/// the order of the treelets.
pub open spec fn records_of(groups: Seq<BucketInfo>, t: int) -> Seq<BVHPrimitiveInfo>
    decreases t,
{
    if t <= 0 {
        Seq::empty()
    } else {
        let before = records_of(groups, t - 1);
        if groups[t - 1].count > 0 {
            before.push(record_of(t - 1, groups[t - 1].bounds))
        } else {
            before
        }
    }
}

/// One record for each treelet that holds primitives, in the order of the
/// treelets: its number is the treelet and its box that of the treelet's
/// primitives.
pub fn treelet_records(groups: &Vec<BucketInfo>) -> (coarse: Vec<BVHPrimitiveInfo>)
    requires
        groups.len() == MAX_TREELETS,
        forall|t: int| 0 <= t < MAX_TREELETS ==> (#[trigger] groups@[t]).bounds.in_range(),
    ensures
        coarse@ == records_of(groups@, MAX_TREELETS as int),
        coarse.len() <= MAX_TREELETS,
        all_wf(coarse@),
        numbers_distinct(coarse@),
        forall|p: int|
            0 <= p < coarse.len() ==> {
                let t = (#[trigger] coarse@[p]).primitive_number as int;
                t < MAX_TREELETS && groups@[t].count > 0 && coarse@[p].bounds == groups@[t].bounds
            },
        forall|t: int|
            0 <= t < MAX_TREELETS && (#[trigger] groups@[t]).count > 0 ==> exists|p: int|
                0 <= p < coarse.len() && (#[trigger] coarse@[p]).primitive_number == t,
{
    let mut coarse: Vec<BVHPrimitiveInfo> = Vec::new();
    let mut t: usize = 0;
    while t < MAX_TREELETS
        invariant
            t <= MAX_TREELETS,
            groups.len() == MAX_TREELETS,
            forall|u: int| 0 <= u < MAX_TREELETS ==> (#[trigger] groups@[u]).bounds.in_range(),
            coarse.len() <= t,
            coarse@ == records_of(groups@, t as int),
            all_wf(coarse@),
            forall|p: int, q: int|
                0 <= p < q < coarse.len() ==> (#[trigger] coarse@[p]).primitive_number < (
                #[trigger] coarse@[q]).primitive_number,
            forall|p: int|
                0 <= p < coarse.len() ==> {
                    let u = (#[trigger] coarse@[p]).primitive_number as int;
                    u < t && groups@[u].count > 0 && coarse@[p].bounds == groups@[u].bounds
                },
            forall|u: int|
                0 <= u < t && (#[trigger] groups@[u]).count > 0 ==> exists|p: int|
                    0 <= p < coarse.len() && (#[trigger] coarse@[p]).primitive_number == u,
        decreases MAX_TREELETS - t,
    {
        if groups[t].count > 0 {
            let ghost before = coarse@;
            coarse.push(BVHPrimitiveInfo::new(t, groups[t].bounds));
            proof {
                let last = coarse.len() - 1;
                assert forall|u: int|
                    0 <= u < t + 1 && (#[trigger] groups@[u]).count > 0 implies exists|p: int|
                    0 <= p < coarse.len() && (#[trigger] coarse@[p]).primitive_number == u by {
                    if u == t {
                        assert(coarse@[last].primitive_number == u);
                    } else {
                        let p = choose|p: int|
                            0 <= p < before.len() && (#[trigger] before[p]).primitive_number == u;
                        assert(coarse@[p].primitive_number == u);
                    }
                }
            }
        }
        t = t + 1;
    }
    coarse
}

/// Every leaf of the tree holds one primitive.
pub open spec fn unit_leaves(node: &BVHBuildNode) -> bool
    decreases node,
{
    match node.children {
        None => node.n_primitives == 1,
        Some((c0, c1)) => unit_leaves(&c0) && unit_leaves(&c1),
    }
}

/// The tree `node` is what joining makes of the treelet records of `given`
/// from `start` up to `end`: a single record is a leaf, and any other range
/// an interior node along the axis of its division by `always_division`,
/// whose children were made of the two sides.
pub open spec fn joined_from(
    node: &BVHBuildNode,
    given: Seq<BVHPrimitiveInfo>,
    start: int,
    end: int,
) -> bool
    decreases node,
{
    if end - start <= 1 {
        node.children is None
    } else {
        match node.children {
            None => false,
            Some((c0, c1)) => {
                let mid = start + c0.count();
                let d = always_division(given, start, end);
                &&& node.split_axis == d.axis()
                &&& exists|divided: Seq<BVHPrimitiveInfo>, first: Seq<BVHPrimitiveInfo>|
                    {
                        &&& #[trigger] arranged(given, divided, first, start, mid, end, d)
                        &&& joined_from(&c0, divided, start, mid)
                        &&& joined_from(&c1, first, mid, end)
                    }
            },
        }
    }
}

/// An interior node over the trees of the two sides of a division is what
/// joining makes of the range.
proof fn lemma_joined_interior(
    node: &BVHBuildNode,
    c0: &BVHBuildNode,
    c1: &BVHBuildNode,
    given: Seq<BVHPrimitiveInfo>,
    divided: Seq<BVHPrimitiveInfo>,
    first: Seq<BVHPrimitiveInfo>,
    start: int,
    mid: int,
    end: int,
)
    requires
        node.children matches Some((n0, n1)) && *n0 == *c0 && *n1 == *c1,
        end - start > 1,
        node.split_axis == always_division(given, start, end).axis(),
        c0.count() == mid - start,
        arranged(given, divided, first, start, mid, end, always_division(given, start, end)),
        joined_from(c0, divided, start, mid),
        joined_from(c1, first, mid, end),
    ensures
        joined_from(node, given, start, end),
{
    match node.children {
        Some((n0, n1)) => {
            assert(start + n0.count() == mid);
            assert(joined_from(&n0, divided, start, mid));
            assert(joined_from(&n1, first, mid, end));
        },
        None => {},
    }
}

/// Builds the tree that joins the treelets: over the treelet records from
/// `start` up to `end`, divided by the surface area heuristic down to single
/// records.
pub fn build_upper_sah(coarse: &mut Vec<BVHPrimitiveInfo>, start: usize, end: usize) -> (node: Arc<
    BVHBuildNode,
>)
    requires
        start < end <= old(coarse).len() <= MAX_PRIMITIVES,
        all_wf(old(coarse)@),
    ensures
        rearranged(final(coarse)@, old(coarse)@, start as int, end as int),
        all_wf(final(coarse)@),
        node.covers(final(coarse)@, start as int),
        node.count() == end - start,
        unit_leaves(&node),
        joined_from(&node, old(coarse)@, start as int, end as int),
    decreases end - start,
{
    if end - start == 1 {
        proof {
            lemma_rearranged_same(coarse@, start as int, end as int);
        }
        let bounds = range_bounds(coarse, start, end);
        return BVHBuildNode::new_leaf_node(start, 1, bounds);
    }
    let (mid, axis) = divide_always(coarse, start, end);
    let ghost divided = coarse@;
    let c0 = build_upper_sah(coarse, start, mid);
    let ghost first = coarse@;
    proof {
        lemma_covers_counts(&c0, first, start as int);
    }
    let c1 = build_upper_sah(coarse, mid, end);
    proof {
        lemma_covers_counts(&c1, coarse@, mid as int);
        lemma_covers_frame(&c0, first, coarse@, start as int);
        lemma_rearranged_widen(first, divided, start as int, mid as int, start as int, end as int);
        lemma_rearranged_widen(coarse@, first, mid as int, end as int, start as int, end as int);
        lemma_rearranged_twice(coarse@, first, divided, start as int, end as int);
        lemma_rearranged_twice(coarse@, divided, old(coarse)@, start as int, end as int);
    }
    let ghost g0 = c0;
    let ghost g1 = c1;
    let node = BVHBuildNode::new_interior_node(axis, c0, c1);
    proof {
        lemma_joined_interior(
            &node,
            &g0,
            &g1,
            old(coarse)@,
            divided,
            first,
            start as int,
            mid as int,
            end as int,
        );
    }
    node
}

/// `table` holds for each treelet its place among the treelet records
/// `coarse`, and zero for a treelet without a record.
pub open spec fn ranks_of_records(table: Seq<u32>, coarse: Seq<BVHPrimitiveInfo>) -> bool {
    &&& table.len() == MAX_TREELETS
    &&& forall|p: int|
        0 <= p < coarse.len() ==> table[(#[trigger] coarse[p]).primitive_number as int] == p
    &&& forall|t: int|
        0 <= t < MAX_TREELETS ==> #[trigger] table[t] == 0 || exists|p: int|
            0 <= p < coarse.len() && (#[trigger] coarse[p]).primitive_number == t
}

/// For each treelet its place among the treelet records; zero for a treelet
/// without a record.
pub fn treelet_ranks(coarse: &Vec<BVHPrimitiveInfo>) -> (ranks: Vec<u32>)
    requires
        1 <= coarse.len() <= MAX_TREELETS,
        numbers_distinct(coarse@),
        forall|p: int| 0 <= p < coarse.len() ==> (#[trigger] coarse@[p]).primitive_number < MAX_TREELETS,
    ensures
        ranks.len() == MAX_TREELETS,
        forall|t: int| 0 <= t < MAX_TREELETS ==> #[trigger] ranks@[t] < coarse.len(),
        ranks_of_records(ranks@, coarse@),
{
    let mut ranks: Vec<u32> = Vec::with_capacity(MAX_TREELETS);
    let mut t: usize = 0;
    while t < MAX_TREELETS
        invariant
            t <= MAX_TREELETS,
            ranks.len() == t,
            forall|u: int| 0 <= u < t ==> #[trigger] ranks@[u] == 0,
        decreases MAX_TREELETS - t,
    {
        ranks.push(0);
        t = t + 1;
    }
    let mut p: usize = 0;
    while p < coarse.len()
        invariant
            p <= coarse.len() <= MAX_TREELETS,
            1 <= coarse.len(),
            ranks.len() == MAX_TREELETS,
            numbers_distinct(coarse@),
            forall|q: int|
                0 <= q < coarse.len() ==> (#[trigger] coarse@[q]).primitive_number < MAX_TREELETS,
            forall|u: int| 0 <= u < MAX_TREELETS ==> #[trigger] ranks@[u] < coarse.len(),
            forall|q: int|
                0 <= q < p ==> ranks@[(#[trigger] coarse@[q]).primitive_number as int] == q,
            forall|u: int|
                0 <= u < MAX_TREELETS ==> #[trigger] ranks@[u] == 0 || exists|q: int|
                    0 <= q < p && (#[trigger] coarse@[q]).primitive_number == u,
        decreases coarse.len() - p,
    {
        let t = coarse[p].primitive_number;
        let ghost before = ranks@;
        ranks[t] = p as u32;
        proof {
            assert forall|u: int| 0 <= u < MAX_TREELETS implies #[trigger] ranks@[u] == 0 || exists|
                q: int,
            | 0 <= q < p + 1 && (#[trigger] coarse@[q]).primitive_number == u by {
                if u == t {
                    assert(coarse@[p as int].primitive_number == u);
                } else if before[u] != 0 {
                    let q = choose|q: int| 0 <= q < p && (#[trigger] coarse@[q]).primitive_number == u;
                    assert(coarse@[q].primitive_number == u);
                }
            }
            assert forall|q: int| 0 <= q < p + 1 implies ranks@[(
            #[trigger] coarse@[q]).primitive_number as int] == q by {
                if q < p {
                    assert(coarse@[q].primitive_number != coarse@[p as int].primitive_number);
                }
            }
        }
        p = p + 1;
    }
    ranks
}

/// The key by which a record is sorted into its treelet's place: the rank of
/// the treelet of its code, followed by the bits of the code below the
/// treelet's.
pub open spec fn key_of(ranks: Seq<u32>, code: u32) -> u32 {
    (ranks[treelet_of(code) as int] << TREELET_SHIFT) | (code & 0x3ffff)
}

/// A key keeps the rank above its low bits.
proof fn lemma_key_rank(rank: u32, code: u32, key: u32)
    by (bit_vector)
    requires
        rank < 4096,
        key == (rank << 18) | (code & 0x3ffff),
    ensures
        key >> 18 == rank,
        key >> 30 == 0,
{
}

/// The keys of all records.
pub fn treelet_keys(codes: &Vec<u32>, ranks: &Vec<u32>) -> (keys: Vec<u32>)
    requires
        ranks.len() == MAX_TREELETS,
        forall|t: int| 0 <= t < MAX_TREELETS ==> #[trigger] ranks@[t] < MAX_TREELETS,
        forall|i: int| 0 <= i < codes.len() ==> #[trigger] codes@[i] < 0x4000_0000,
    ensures
        keys.len() == codes.len(),
        forall|i: int|
            0 <= i < codes.len() ==> {
                &&& #[trigger] keys@[i] == key_of(ranks@, codes@[i])
                &&& keys@[i] >> TREELET_SHIFT == ranks@[treelet_of(codes@[i]) as int]
                &&& keys@[i] >> 30 == 0
            },
{
    let mut keys: Vec<u32> = Vec::with_capacity(codes.len());
    let mut i: usize = 0;
    while i < codes.len()
        invariant
            i <= codes.len(),
            keys.len() == i,
            ranks.len() == MAX_TREELETS,
            forall|t: int| 0 <= t < MAX_TREELETS ==> #[trigger] ranks@[t] < MAX_TREELETS,
            forall|k: int| 0 <= k < codes.len() ==> #[trigger] codes@[k] < 0x4000_0000,
            forall|k: int|
                0 <= k < i ==> {
                    &&& #[trigger] keys@[k] == key_of(ranks@, codes@[k])
                    &&& keys@[k] >> TREELET_SHIFT == ranks@[treelet_of(codes@[k]) as int]
                    &&& keys@[k] >> 30 == 0
                },
        decreases codes.len() - i,
    {
        let code = codes[i];
        proof {
            lemma_treelet_range(code);
        }
        let rank = ranks[(code >> TREELET_SHIFT) as usize];
        let key = (rank << TREELET_SHIFT) | (code & 0x3ffff);
        proof {
            lemma_key_rank(rank, code, key);
        }
        keys.push(key);
        i = i + 1;
    }
    keys
}

/// Some record belongs to the treelet of rank `p`.
pub open spec fn rank_occurs(ranks: Seq<u32>, p: int) -> bool {
    exists|i: int| 0 <= i < ranks.len() && #[trigger] ranks[i] == p
}

/// The rank that the key at each position carries is the one that `ranks`
/// names; the ranks do not fall from one position to the next; before
/// `cursor` they lie below `next`, and from `cursor` on they do not.
pub open spec fn ranked(keys: Seq<u32>, ranks: Seq<u32>, cursor: int, next: int) -> bool {
    &&& ranks.len() == keys.len()
    &&& forall|i: int| 0 <= i < keys.len() ==> (#[trigger] keys[i]) >> TREELET_SHIFT == ranks[i]
    &&& forall|i: int, j: int| 0 <= i < j < ranks.len() ==> #[trigger] ranks[i] <= #[trigger] ranks[j]
    &&& forall|i: int| 0 <= i < cursor && i < ranks.len() ==> #[trigger] ranks[i] < next
    &&& forall|i: int| cursor <= i < ranks.len() ==> #[trigger] ranks[i] >= next
}

/// The records from `start` up to `end` are those whose key carries the rank
/// `rank`.
pub open spec fn in_run(
    infos: Seq<BVHPrimitiveInfo>,
    f: spec_fn(BVHPrimitiveInfo) -> u32,
    start: int,
    end: int,
    rank: int,
) -> bool {
    &&& forall|i: int| start <= i < end ==> f(#[trigger] infos[i]) >> TREELET_SHIFT == rank
    &&& forall|i: int|
        0 <= i < infos.len() && !(start <= i < end) ==> f(#[trigger] infos[i]) >> TREELET_SHIFT
            != rank
}

/// The tree `node` is the tree `upper` over the treelet records with the tree
/// of its treelet in the place of each leaf.
///
/// `given` holds the records sorted by the rank of their treelet, the
/// records of `node` begin at `cursor`, and the first leaf of `upper` stands
/// for the treelet of rank `first_rank`. In the place of a leaf stands what
/// dividing by the bits below the treelet's makes of the records of the leaf's
/// rank. An interior node of `upper` is an interior node along the same axis,
/// whose second child was made once the first had rearranged its records.
pub open spec fn grafted(
    node: &BVHBuildNode,
    upper: &BVHBuildNode,
    given: Seq<BVHPrimitiveInfo>,
    f: spec_fn(BVHPrimitiveInfo) -> u32,
    cursor: int,
    first_rank: int,
    max_prims_in_node: usize,
) -> bool
    decreases upper,
{
    match upper.children {
        None => {
            &&& in_run(given, f, cursor, cursor + node.count(), first_rank)
            &&& emitted_from(
                node,
                given,
                f,
                cursor,
                cursor + node.count(),
                TREELET_SHIFT,
                max_prims_in_node,
            )
        },
        Some((u0, u1)) => match node.children {
            None => false,
            Some((c0, c1)) => {
                &&& node.split_axis == upper.split_axis
                &&& grafted(&c0, &u0, given, f, cursor, first_rank, max_prims_in_node)
                &&& exists|first: Seq<BVHPrimitiveInfo>|
                    #[trigger] rearranged(first, given, cursor, cursor + c0.count()) && grafted(
                        &c1,
                        &u1,
                        first,
                        f,
                        cursor + c0.count(),
                        first_rank + u0.count(),
                        max_prims_in_node,
                    )
            },
        }
    }
}

/// An interior node over the trees that stand for the two children of an
/// interior node of the tree over the treelet records stands for that node.
proof fn lemma_grafted_interior(
    node: &BVHBuildNode,
    c0: &BVHBuildNode,
    c1: &BVHBuildNode,
    upper: &BVHBuildNode,
    given: Seq<BVHPrimitiveInfo>,
    first: Seq<BVHPrimitiveInfo>,
    f: spec_fn(BVHPrimitiveInfo) -> u32,
    cursor: int,
    first_rank: int,
    max_prims_in_node: usize,
)
    requires
        node.children matches Some((n0, n1)) && *n0 == *c0 && *n1 == *c1,
        node.split_axis == upper.split_axis,
        upper.children matches Some((u0, u1)) && grafted(
            c0,
            &u0,
            given,
            f,
            cursor,
            first_rank,
            max_prims_in_node,
        ) && rearranged(first, given, cursor, cursor + c0.count()) && grafted(
            c1,
            &u1,
            first,
            f,
            cursor + c0.count(),
            first_rank + u0.count(),
            max_prims_in_node,
        ),
    ensures
        grafted(node, upper, given, f, cursor, first_rank, max_prims_in_node),
{
    match (node.children, upper.children) {
        (Some((n0, n1)), Some((u0, u1))) => {
            assert(grafted(&n0, &u0, given, f, cursor, first_rank, max_prims_in_node));
            assert(grafted(
                &n1,
                &u1,
                first,
                f,
                cursor + n0.count(),
                first_rank + u0.count(),
                max_prims_in_node,
            ));
        },
        _ => {},
    }
}

/// Builds the tree over all records that the tree `upper` over the treelet
/// records stands for: each leaf of `upper` gives way to the tree of its
/// treelet, built by the bits of the keys below the treelet's.
///
/// The records are sorted by the rank of their treelet, and `upper` covers
/// the treelet records from rank `first_rank` on; the records before `cursor`
/// belong to treelets of lower rank. Returns the tree and the position behind
/// the records that it covers.
#[verifier::rlimit(40)]
pub fn assemble(
    upper: &BVHBuildNode,
    infos: &mut Vec<BVHPrimitiveInfo>,
    keys: &mut Vec<u32>,
    cursor: usize,
    max_prims_in_node: usize,
    total_nodes: &mut usize,
    Ghost(f): Ghost<spec_fn(BVHPrimitiveInfo) -> u32>,
    Ghost(coarse): Ghost<Seq<BVHPrimitiveInfo>>,
    Ghost(first_rank): Ghost<int>,
    Ghost(ranks): Ghost<Seq<u32>>,
) -> (r: (Arc<BVHBuildNode>, usize))
    requires
        upper.covers(coarse, first_rank),
        unit_leaves(upper),
        old(infos).len() <= MAX_PRIMITIVES,
        all_wf(old(infos)@),
        attached(old(infos)@, old(keys)@, f),
        cursor <= old(infos).len(),
        ranked(old(keys)@, ranks, cursor as int, first_rank),
        forall|p: int|
            first_rank <= p < first_rank + upper.count() ==> #[trigger] rank_occurs(ranks, p),
        *old(total_nodes) + 2 * (old(infos).len() - cursor) <= usize::MAX,
    ensures
        cursor < r.1 <= final(infos).len(),
        rearranged(final(infos)@, old(infos)@, cursor as int, r.1 as int),
        all_wf(final(infos)@),
        attached(final(infos)@, final(keys)@, f),
        ranked(final(keys)@, ranks, r.1 as int, first_rank + upper.count()),
        r.0.covers(final(infos)@, cursor as int),
        r.0.count() == r.1 - cursor,
        *final(total_nodes) == *old(total_nodes) + r.0.node_count(),
        grafted(&r.0, upper, old(infos)@, f, cursor as int, first_rank, max_prims_in_node),
    decreases upper,
{
    let n = infos.len();
    match &upper.children {
        None => {
            assert(rank_occurs(ranks, first_rank));
            let ghost w = choose|i: int| 0 <= i < ranks.len() && #[trigger] ranks[i] == first_rank;
            assert(ranks[w] == first_rank);
            assert(cursor <= w);
            assert(ranks[cursor as int] <= ranks[w] || cursor == w);
            let rank = keys[cursor] >> TREELET_SHIFT;
            let mut end: usize = cursor + 1;
            while end < n && keys[end] >> TREELET_SHIFT == rank
                invariant
                    cursor < end <= n == keys.len(),
                    rank == first_rank,
                    ranked(keys@, ranks, cursor as int, first_rank),
                    forall|i: int| cursor <= i < end ==> #[trigger] ranks[i] == rank,
                decreases n - end,
            {
                end = end + 1;
            }
            proof {
                assert forall|i: int, j: int|
                    cursor <= i < end && cursor <= j < end implies (#[trigger] keys@[i])
                    >> TREELET_SHIFT == (#[trigger] keys@[j]) >> TREELET_SHIFT by {
                    assert(ranks[i] == rank && ranks[j] == rank);
                }
            }
            let node = emit_lbvh(
                infos,
                keys,
                cursor,
                end,
                TREELET_SHIFT,
                max_prims_in_node,
                total_nodes,
                Ghost(f),
            );
            proof {
                lemma_keys_unmoved(
                    infos@,
                    keys@,
                    old(infos)@,
                    old(keys)@,
                    f,
                    cursor as int,
                    end as int,
                );
                assert forall|i: int| 0 <= i < keys@.len() implies (#[trigger] keys@[i])
                    >> TREELET_SHIFT == ranks[i] by {
                    if cursor <= i < end {
                        let q = lemma_keys_drawn(
                            infos@,
                            keys@,
                            old(infos)@,
                            old(keys)@,
                            f,
                            cursor as int,
                            end as int,
                            i,
                        );
                        assert(ranks[q] == rank && ranks[i] == rank);
                    }
                }
                assert forall|i: int| end <= i < ranks.len() implies #[trigger] ranks[i]
                    >= first_rank + 1 by {
                    assert(ranks[end as int] <= ranks[i] || end == i);
                    assert(ranks[cursor as int] <= ranks[end as int]);
                }
                assert(in_run(old(infos)@, f, cursor as int, end as int, first_rank)) by {
                    assert forall|i: int| cursor <= i < end implies f(#[trigger] old(infos)@[i])
                        >> TREELET_SHIFT == first_rank by {
                        assert(old(keys)@[i] >> TREELET_SHIFT == ranks[i]);
                    }
                    assert forall|i: int|
                        0 <= i < old(infos)@.len() && !(cursor <= i < end) implies f(
                        #[trigger] old(infos)@[i],
                    ) >> TREELET_SHIFT != first_rank by {
                        assert(old(keys)@[i] >> TREELET_SHIFT == ranks[i]);
                    }
                }
            }
            (node, end)
        },
        Some((u0, u1)) => {
            proof {
                lemma_covers_counts(u0, coarse, first_rank);
                lemma_covers_counts(u1, coarse, first_rank + u0.count());
            }
            let (c0, middle) = assemble(
                u0,
                infos,
                keys,
                cursor,
                max_prims_in_node,
                total_nodes,
                Ghost(f),
                Ghost(coarse),
                Ghost(first_rank),
                Ghost(ranks),
            );
            let ghost first = infos@;
            proof {
                lemma_covers_counts(&c0, first, cursor as int);
            }
            let (c1, end) = assemble(
                u1,
                infos,
                keys,
                middle,
                max_prims_in_node,
                total_nodes,
                Ghost(f),
                Ghost(coarse),
                Ghost(first_rank + u0.count()),
                Ghost(ranks),
            );
            proof {
                lemma_covers_counts(&c1, infos@, middle as int);
                lemma_covers_frame(&c0, first, infos@, cursor as int);
                lemma_rearranged_widen(
                    first,
                    old(infos)@,
                    cursor as int,
                    middle as int,
                    cursor as int,
                    end as int,
                );
                lemma_rearranged_widen(
                    infos@,
                    first,
                    middle as int,
                    end as int,
                    cursor as int,
                    end as int,
                );
                lemma_rearranged_twice(infos@, first, old(infos)@, cursor as int, end as int);
            }
            *total_nodes = *total_nodes + 1;
            let ghost g0 = c0;
            let ghost g1 = c1;
            let node = BVHBuildNode::new_interior_node(upper.split_axis, c0, c1);
            proof {
                lemma_grafted_interior(
                    &node,
                    &g0,
                    &g1,
                    upper,
                    old(infos)@,
                    first,
                    f,
                    cursor as int,
                    first_rank,
                    max_prims_in_node,
                );
            }
            (node, end)
        },
    }
}

/// The rank of the treelet of a code.
pub open spec fn rank_of(table: Seq<u32>, code: u32) -> u32 {
    table[treelet_of(code) as int]
}

/// The function that gives each record its key.
pub open spec fn key_fn(table: Seq<u32>, cb: Bounds3i) -> spec_fn(BVHPrimitiveInfo) -> u32 {
    |info: BVHPrimitiveInfo| key_of(table, code_of(info, cb))
}

/// Some code belongs to a treelet of rank `r`.
pub open spec fn code_has_rank(codes: Seq<u32>, table: Seq<u32>, r: u32) -> bool {
    exists|x: int| 0 <= x < codes.len() && rank_of(table, #[trigger] codes[x]) == r
}

/// Some key carries the rank `r`.
pub open spec fn key_has_rank(keys: Seq<u32>, r: u32) -> bool {
    exists|i: int| 0 <= i < keys.len() && (#[trigger] keys[i]) >> TREELET_SHIFT == r
}

/// The ranks that the keys carry.
pub open spec fn ranks_of(keys: Seq<u32>) -> Seq<u32> {
    Seq::new(keys.len(), |i: int| keys[i] >> TREELET_SHIFT)
}

/// Sorts the records by the rank of the treelet of their code, and returns
/// the keys of the sorted records.
pub fn sort_by_treelet(
    infos: &mut Vec<BVHPrimitiveInfo>,
    codes: &Vec<u32>,
    table: &Vec<u32>,
    Ghost(cb): Ghost<Bounds3i>,
) -> (keys: Vec<u32>)
    requires
        codes.len() == old(infos).len(),
        forall|i: int|
            0 <= i < codes.len() ==> #[trigger] codes@[i] == code_of(old(infos)@[i], cb) && codes@[i]
                < 0x4000_0000,
        table.len() == MAX_TREELETS,
        forall|t: int| 0 <= t < MAX_TREELETS ==> #[trigger] table@[t] < MAX_TREELETS,
    ensures
        keys.len() == old(infos).len(),
        rearranged(final(infos)@, old(infos)@, 0, old(infos).len() as int),
        attached(final(infos)@, keys@, key_fn(table@, cb)),
        sorted_above(keys@, 0, keys.len() as int, TREELET_SHIFT),
        forall|i: int|
            0 <= i < keys.len() ==> code_has_rank(
                codes@,
                table@,
                (#[trigger] keys@[i]) >> TREELET_SHIFT,
            ),
        forall|x: int|
            0 <= x < codes.len() ==> key_has_rank(keys@, rank_of(table@, #[trigger] codes@[x])),
{
    let n = infos.len();
    let mut keys = treelet_keys(codes, table);
    let ghost f = key_fn(table@, cb);
    let ghost given_keys = keys@;
    proof {
        assert forall|i: int, j: int| 0 <= i < n && 0 <= j < n implies (#[trigger] keys@[i]) >> 30u32
            == (#[trigger] keys@[j]) >> 30u32 by {}
        assert(attached(infos@, keys@, f));
    }
    sort_by_bits(infos, &mut keys, 0, n, 29, TREELET_SHIFT, Ghost(f));
    proof {
        assert forall|i: int| 0 <= i < keys.len() implies code_has_rank(
            codes@,
            table@,
            (#[trigger] keys@[i]) >> TREELET_SHIFT,
        ) by {
            let q = lemma_keys_drawn(infos@, keys@, old(infos)@, given_keys, f, 0, n as int, i);
            assert(given_keys[q] >> TREELET_SHIFT == rank_of(table@, codes@[q]));
        }
        assert forall|x: int| 0 <= x < codes.len() implies key_has_rank(
            keys@,
            rank_of(table@, #[trigger] codes@[x]),
        ) by {
            assert(occurs(infos@, 0, n as int, old(infos)@[x]));
            let y = choose|y: int| 0 <= y < n && #[trigger] infos@[y] == old(infos)@[x];
            assert(keys@[y] == f(infos@[y]));
            assert(given_keys[x] == f(old(infos)@[x]));
            assert(given_keys[x] >> TREELET_SHIFT == rank_of(table@, codes@[x]));
            assert(keys@[y] >> TREELET_SHIFT == rank_of(table@, codes@[x]));
        }
    }
    keys
}

/// The treelet records in the order that the tree over them gives them, and
/// that tree.
pub fn order_treelets(groups: &Vec<BucketInfo>) -> (r: (Arc<BVHBuildNode>, Vec<BVHPrimitiveInfo>))
    requires
        groups.len() == MAX_TREELETS,
        forall|t: int| 0 <= t < MAX_TREELETS ==> (#[trigger] groups@[t]).bounds.in_range(),
        exists|t: int| 0 <= t < MAX_TREELETS && (#[trigger] groups@[t]).count > 0,
    ensures
        1 <= r.1.len() <= MAX_TREELETS,
        r.0.covers(r.1@, 0),
        r.0.count() == r.1.len(),
        unit_leaves(&r.0),
        numbers_distinct(r.1@),
        joined_from(&r.0, records_of(groups@, MAX_TREELETS as int), 0, r.1.len() as int),
        rearranged(r.1@, records_of(groups@, MAX_TREELETS as int), 0, r.1.len() as int),
        forall|p: int|
            0 <= p < r.1.len() ==> (#[trigger] r.1@[p]).primitive_number < MAX_TREELETS && groups@[r.1@[p].primitive_number as int].count
                > 0,
{
    let mut coarse = treelet_records(groups);
    let ghost given = coarse@;
    proof {
        let t = choose|t: int| 0 <= t < MAX_TREELETS && (#[trigger] groups@[t]).count > 0;
        assert(groups@[t].count > 0);
    }
    let m = coarse.len();
    let upper = build_upper_sah(&mut coarse, 0, m);
    proof {
        assert forall|p: int| 0 <= p < m implies (#[trigger] coarse@[p]).primitive_number
            < MAX_TREELETS && groups@[coarse@[p].primitive_number as int].count > 0 by {
            assert(occurs(given, 0, m as int, coarse@[p]));
            let q = choose|q: int| 0 <= q < m && #[trigger] given[q] == coarse@[p];
            assert(given[q].primitive_number < MAX_TREELETS);
        }
    }
    (upper, coarse)
}

/// Once the records are sorted by rank, every rank below the number of
/// treelet records is carried by a key, no key carries another, and the ranks
/// do not fall.
proof fn lemma_ranks_ready(
    keys: Seq<u32>,
    codes: Seq<u32>,
    table: Seq<u32>,
    coarse: Seq<BVHPrimitiveInfo>,
    groups: Seq<BucketInfo>,
)
    requires
        groups.len() == MAX_TREELETS,
        table.len() == MAX_TREELETS,
        1 <= coarse.len(),
        forall|t: int| 0 <= t < MAX_TREELETS ==> #[trigger] table[t] < coarse.len(),
        forall|p: int|
            0 <= p < coarse.len() ==> table[(#[trigger] coarse[p]).primitive_number as int] == p,
        forall|p: int|
            0 <= p < coarse.len() ==> (#[trigger] coarse[p]).primitive_number < MAX_TREELETS && groups[coarse[p].primitive_number as int].count
                > 0,
        forall|t: int|
            0 <= t < MAX_TREELETS && (#[trigger] groups[t]).count > 0 ==> exists|i: int|
                0 <= i < codes.len() && treelet_of(#[trigger] codes[i]) == t,
        forall|i: int| 0 <= i < codes.len() ==> #[trigger] codes[i] < 0x4000_0000,
        sorted_above(keys, 0, keys.len() as int, TREELET_SHIFT),
        forall|i: int|
            0 <= i < keys.len() ==> code_has_rank(codes, table, (#[trigger] keys[i]) >> TREELET_SHIFT),
        forall|x: int| 0 <= x < codes.len() ==> key_has_rank(keys, rank_of(table, #[trigger] codes[x])),
    ensures
        ranked(keys, ranks_of(keys), 0, 0),
        forall|p: int| 0 <= p < coarse.len() ==> #[trigger] rank_occurs(ranks_of(keys), p),
        forall|i: int| 0 <= i < keys.len() ==> #[trigger] ranks_of(keys)[i] < coarse.len(),
{
    let ranks = ranks_of(keys);
    assert forall|p: int| 0 <= p < coarse.len() implies #[trigger] rank_occurs(ranks, p) by {
        let t = coarse[p].primitive_number as int;
        assert(groups[t].count > 0);
        let x = choose|x: int| 0 <= x < codes.len() && treelet_of(#[trigger] codes[x]) == t;
        assert(rank_of(table, codes[x]) == p);
        assert(key_has_rank(keys, rank_of(table, codes[x])));
        let i = choose|i: int|
            0 <= i < keys.len() && (#[trigger] keys[i]) >> TREELET_SHIFT == rank_of(table, codes[x]);
        assert(ranks[i] == p);
    }
    assert forall|i: int| 0 <= i < keys.len() implies #[trigger] ranks[i] < coarse.len() by {
        assert(code_has_rank(codes, table, keys[i] >> TREELET_SHIFT));
        let x = choose|x: int|
            0 <= x < codes.len() && rank_of(table, #[trigger] codes[x]) == keys[i] >> TREELET_SHIFT;
        lemma_treelet_range(codes[x]);
    }
    assert forall|i: int, j: int| 0 <= i < j < ranks.len() implies #[trigger] ranks[i]
        <= #[trigger] ranks[j] by {
        assert(keys[i] >> TREELET_SHIFT <= keys[j] >> TREELET_SHIFT);
    }
}

/// The Morton codes of the records within the box `cb`.
pub open spec fn codes_of(infos: Seq<BVHPrimitiveInfo>, cb: Bounds3i) -> Seq<u32> {
    Seq::new(infos.len(), |i: int| code_of(infos[i], cb))
}

/// The tree `node` is what the clustered builder makes of the records of
/// `given`, by way of the tree `upper` over the treelet records, their final
/// arrangement `coarse`, the table `table` of their ranks, and the
/// arrangement `sorted` of the records by rank.
///
/// The treelet records are those of the treelets of the Morton codes within
/// the box of all centroids. `upper` is what joining makes of them, and
/// `coarse` the arrangement that it covers. `table` gives each treelet its
/// place in `coarse`. `sorted` holds the records of `given` in the order of
/// the ranks of their treelets, and `node` is `upper` with the tree of its
/// treelet in the place of each leaf.
pub open spec fn clustered_by(
    node: &BVHBuildNode,
    given: Seq<BVHPrimitiveInfo>,
    max_prims_in_node: usize,
    upper: &BVHBuildNode,
    coarse: Seq<BVHPrimitiveInfo>,
    table: Seq<u32>,
    sorted: Seq<BVHPrimitiveInfo>,
) -> bool {
    let n = given.len() as int;
    let cb = centroid_box(given, 0, n);
    let records = records_of(treelet_fill(given, codes_of(given, cb), n), MAX_TREELETS as int);
    let f = key_fn(table, cb);
    &&& joined_from(upper, records, 0, records.len() as int)
    &&& rearranged(coarse, records, 0, records.len() as int)
    &&& upper.covers(coarse, 0)
    &&& ranks_of_records(table, coarse)
    &&& rearranged(sorted, given, 0, n)
    &&& forall|i: int, j: int|
        0 <= i < j < n ==> f(#[trigger] sorted[i]) >> TREELET_SHIFT <= f(#[trigger] sorted[j])
            >> TREELET_SHIFT
    &&& grafted(node, upper, sorted, f, 0, 0, max_prims_in_node)
}

/// The tree `node` is what the clustered builder makes of the records of
/// `given`.
pub open spec fn clustered_from(
    node: &BVHBuildNode,
    given: Seq<BVHPrimitiveInfo>,
    max_prims_in_node: usize,
) -> bool {
    exists|
        upper: BVHBuildNode,
        coarse: Seq<BVHPrimitiveInfo>,
        table: Seq<u32>,
        sorted: Seq<BVHPrimitiveInfo>,
    | #[trigger]
        clustered_by(node, given, max_prims_in_node, &upper, coarse, table, sorted)
}

/// Builds the tree over all records by clusters, rearranging the records, and
/// adds the number of its nodes to `total_nodes`.
///
/// The records are grouped into treelets by the leading bits of the Morton
/// codes of their centroids. The treelets are joined by the surface area
/// heuristic, which also gives them their order; within each treelet the
/// records are divided by the bits of their codes that follow.
#[verifier::rlimit(40)]
pub fn hlbvh_build(
    infos: &mut Vec<BVHPrimitiveInfo>,
    max_prims_in_node: usize,
    total_nodes: &mut usize,
) -> (node: Arc<BVHBuildNode>)
    requires
        1 <= old(infos).len() <= MAX_PRIMITIVES,
        all_wf(old(infos)@),
        *old(total_nodes) + 2 * old(infos).len() <= usize::MAX,
    ensures
        rearranged(final(infos)@, old(infos)@, 0, old(infos).len() as int),
        all_wf(final(infos)@),
        node.covers(final(infos)@, 0),
        node.count() == old(infos).len(),
        *final(total_nodes) == *old(total_nodes) + node.node_count(),
        clustered_from(&node, old(infos)@, max_prims_in_node),
{
    let n = infos.len();
    let cb = centroid_bounds(infos, 0, n);
    let codes = morton_codes(infos, &cb);
    let groups = treelet_groups(infos, &codes);
    proof {
        lemma_treelet_range(codes@[0]);
        assert(groups@[treelet_of(codes@[0]) as int].count > 0);
        assert(codes@ =~= codes_of(infos@, cb));
    }
    let (upper, coarse) = order_treelets(&groups);
    let table = treelet_ranks(&coarse);
    let mut keys = sort_by_treelet(infos, &codes, &table, Ghost(cb));
    let ghost ranks = ranks_of(keys@);
    proof {
        lemma_rearranged_wf(infos@, old(infos)@, 0, n as int);
        lemma_ranks_ready(keys@, codes@, table@, coarse@, groups@);
    }
    let ghost sorted = infos@;
    let ghost sorted_keys = keys@;
    let (node, end) = assemble(
        &upper,
        infos,
        &mut keys,
        0,
        max_prims_in_node,
        total_nodes,
        Ghost(key_fn(table@, cb)),
        Ghost(coarse@),
        Ghost(0),
        Ghost(ranks),
    );
    proof {
        if end < n {
            assert(ranks[end as int] < coarse.len());
        }
        lemma_rearranged_twice(infos@, sorted, old(infos)@, 0, n as int);
        lemma_clustered(
            &node,
            old(infos)@,
            max_prims_in_node,
            &upper,
            coarse@,
            table@,
            sorted,
            sorted_keys,
            cb,
        );
    }
    node
}

/// What the steps of the clustered builder give is what the clustered builder
/// owes.
proof fn lemma_clustered(
    node: &BVHBuildNode,
    given: Seq<BVHPrimitiveInfo>,
    max_prims_in_node: usize,
    upper: &BVHBuildNode,
    coarse: Seq<BVHPrimitiveInfo>,
    table: Seq<u32>,
    sorted: Seq<BVHPrimitiveInfo>,
    sorted_keys: Seq<u32>,
    cb: Bounds3i,
)
    requires
        cb == centroid_box(given, 0, given.len() as int),
        joined_from(
            upper,
            records_of(
                treelet_fill(given, codes_of(given, cb), given.len() as int),
                MAX_TREELETS as int,
            ),
            0,
            coarse.len() as int,
        ),
        rearranged(
            coarse,
            records_of(
                treelet_fill(given, codes_of(given, cb), given.len() as int),
                MAX_TREELETS as int,
            ),
            0,
            coarse.len() as int,
        ),
        upper.covers(coarse, 0),
        ranks_of_records(table, coarse),
        rearranged(sorted, given, 0, given.len() as int),
        attached(sorted, sorted_keys, key_fn(table, cb)),
        sorted_above(sorted_keys, 0, sorted_keys.len() as int, TREELET_SHIFT),
        grafted(node, upper, sorted, key_fn(table, cb), 0, 0, max_prims_in_node),
    ensures
        clustered_from(node, given, max_prims_in_node),
{
    let f = key_fn(table, cb);
    let n = given.len() as int;
    assert forall|i: int, j: int| 0 <= i < j < n implies f(#[trigger] sorted[i]) >> TREELET_SHIFT
        <= f(#[trigger] sorted[j]) >> TREELET_SHIFT by {
        assert(sorted_keys[i] >> TREELET_SHIFT <= sorted_keys[j] >> TREELET_SHIFT);
    }
    assert(clustered_by(node, given, max_prims_in_node, upper, coarse, table, sorted));
}

} // verus!
