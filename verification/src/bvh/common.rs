//! The types shared by the builders and the flattened hierarchy.

use vstd::prelude::*;
use std::sync::Arc;
use crate::geometry::{Axis, Bounds3i, Point3i};

verus! {

/// How a range of primitives is divided between the two children of a node.
#[derive(Clone, Copy, Debug, PartialEq, Eq, Structural)]
pub enum SplitMethod {
    /// Surface area heuristic.
    SAH,
    /// Morton-order clustering for the lower levels, surface area heuristic
    /// above them.
    HLBVH,
    /// At the midpoint of the centroids' extent.
    Middle,
    /// Into halves of equal size, the first holding the smaller centroids.
    EqualCounts,
}

/// What the surface area heuristic gathers for one bucket.
#[derive(Clone, Copy, Debug, PartialEq, Eq, Structural)]
pub struct BucketInfo {
    /// Count of primitives.
    pub count: usize,
    /// Bounding box of the bucket's primitives.
    pub bounds: Bounds3i,
}

impl Default for BucketInfo {
    fn default() -> (b: BucketInfo)
        ensures
            b == (BucketInfo { count: 0, bounds: Bounds3i::empty_spec() }),
    {
        BucketInfo { count: 0, bounds: Bounds3i::empty() }
    }
}

/// What a builder knows of one primitive.
#[derive(Clone, Copy, Debug, PartialEq, Eq, Structural)]
pub struct BVHPrimitiveInfo {
    /// The primitive's index in the accelerator's collection.
    pub primitive_number: usize,
    /// The primitive's bounding box.
    pub bounds: Bounds3i,
    /// Twice the midpoint of the bounding box: the sum of its two corners,
    /// which stays on the grid.
    pub centroid: Point3i,
}

impl BVHPrimitiveInfo {
    /// The bounding box is within the coordinate range and the centroid is the
    /// sum of its corners.
    pub open spec fn wf(self) -> bool {
        &&& self.bounds.in_range()
        &&& self.centroid.x == self.bounds.p_min.x + self.bounds.p_max.x
        &&& self.centroid.y == self.bounds.p_min.y + self.bounds.p_max.y
        &&& self.centroid.z == self.bounds.p_min.z + self.bounds.p_max.z
    }

    /// The record of primitive `primitive_number` with the box `bounds`.
    pub fn new(primitive_number: usize, bounds: Bounds3i) -> (info: BVHPrimitiveInfo)
        requires
            bounds.in_range(),
        ensures
            info.primitive_number == primitive_number,
            info.bounds == bounds,
            info.wf(),
    {
        BVHPrimitiveInfo {
            primitive_number,
            bounds,
            centroid: Point3i {
                x: bounds.p_min.x + bounds.p_max.x,
                y: bounds.p_min.y + bounds.p_max.y,
                z: bounds.p_min.z + bounds.p_max.z,
            },
        }
    }
}

/// Every record of `infos` is well formed.
pub open spec fn all_wf(infos: Seq<BVHPrimitiveInfo>) -> bool {
    forall|i: int| 0 <= i < infos.len() ==> (#[trigger] infos[i]).wf()
}

/// The boxes of the records at the positions from `start` up to `stop`.
pub open spec fn boxes(infos: Seq<BVHPrimitiveInfo>, start: int, stop: int) -> Seq<Bounds3i> {
    Seq::new((stop - start) as nat, |i: int| infos[start + i].bounds)
}

/// The most primitives that a leaf can hold: what the count of a flattened
/// node can express.
pub const MAX_LEAF_PRIMITIVES: usize = 0xffff;

/// A node of the hierarchy while it is being built.
pub struct BVHBuildNode {
    /// Bounding box of everything beneath this node.
    pub bounds: Bounds3i,
    /// The two children of an interior node; none for a leaf.
    pub children: Option<(Arc<BVHBuildNode>, Arc<BVHBuildNode>)>,
    /// The axis along which the primitives were divided between the children.
    pub split_axis: Axis,
    /// For a leaf, the position of its first primitive in the ordered
    /// primitives.
    pub first_prim_offset: usize,
    /// For a leaf, the number of its primitives; zero for an interior node.
    pub n_primitives: usize,
}

impl BVHBuildNode {
    /// The number of primitives beneath the node.
    pub open spec fn count(&self) -> nat
        decreases self,
    {
        match self.children {
            None => self.n_primitives as nat,
            Some((c0, c1)) => c0.count() + c1.count(),
        }
    }

    /// The number of nodes of the subtree rooted here.
    pub open spec fn node_count(&self) -> nat
        decreases self,
    {
        match self.children {
            None => 1,
            Some((c0, c1)) => 1 + c0.node_count() + c1.node_count(),
        }
    }

    /// The subtree rooted here covers the records of `infos` from position
    /// `start` on, in order and without gaps.
    ///
    /// A leaf holds between one and `MAX_LEAF_PRIMITIVES` records, starts at
    /// `start`, and its box is the union of their boxes. An interior node has
    /// no primitives of its own; its first child covers the records from
    /// `start`, its second child those that follow, and its box is the union
    /// of the children's boxes.
    pub open spec fn covers(&self, infos: Seq<BVHPrimitiveInfo>, start: int) -> bool
        decreases self,
    {
        match self.children {
            None => {
                &&& self.first_prim_offset == start
                &&& 1 <= self.n_primitives <= MAX_LEAF_PRIMITIVES
                &&& 0 <= start
                &&& start + self.n_primitives <= infos.len()
                &&& self.bounds == Bounds3i::union_of(
                    boxes(infos, start, start + self.n_primitives),
                )
            },
            Some((c0, c1)) => {
                &&& self.n_primitives == 0
                &&& c0.covers(infos, start)
                &&& c1.covers(infos, start + c0.count())
                &&& self.bounds == c0.bounds.union_spec(c1.bounds)
            },
        }
    }

    /// Every interior node of the subtree gives the lower half of its
    /// primitives, rounded down, to its first child.
    pub open spec fn halved(&self) -> bool
        decreases self,
    {
        match self.children {
            None => true,
            Some((c0, c1)) => {
                &&& c0.count() == self.count() / 2
                &&& c0.halved()
                &&& c1.halved()
            },
        }
    }

    /// A leaf for the `n` primitives from position `first` on.
    pub fn new_leaf_node(first: usize, n: usize, bounds: Bounds3i) -> (node: Arc<BVHBuildNode>)
        ensures
            *node == (BVHBuildNode {
                bounds,
                children: None,
                split_axis: Axis::X,
                first_prim_offset: first,
                n_primitives: n,
            }),
    {
        Arc::new(
            BVHBuildNode {
                first_prim_offset: first,
                n_primitives: n,
                bounds,
                children: None,
                split_axis: Axis::X,
            },
        )
    }

    /// An interior node over the children `c0` and `c1`, divided along `axis`.
    pub fn new_interior_node(axis: Axis, c0: Arc<BVHBuildNode>, c1: Arc<BVHBuildNode>) -> (node:
        Arc<BVHBuildNode>)
        ensures
            *node == (BVHBuildNode {
                bounds: c0.bounds.union_spec(c1.bounds),
                children: Some((c0, c1)),
                split_axis: axis,
                first_prim_offset: 0,
                n_primitives: 0,
            }),
    {
        let bounds = c0.bounds.union(&c1.bounds);
        Arc::new(
            BVHBuildNode {
                first_prim_offset: 0,
                n_primitives: 0,
                bounds,
                children: Some((c0, c1)),
                split_axis: axis,
            },
        )
    }
}

/// A node of the flattened hierarchy.
#[derive(Clone, Copy, Debug, PartialEq, Eq, Structural)]
pub struct LinearBVHNode {
    /// Bounding box of the node.
    pub bounds: Bounds3i,
    /// For a leaf, the position of its first primitive in the ordered
    /// primitives; for an interior node, the index of its second child.
    pub offset: u32,
    /// For a leaf, the number of its primitives; zero for an interior node.
    pub n_primitives: u16,
    /// For an interior node, the axis along which its primitives were divided.
    pub axis: u8,
    /// Unused; keeps the record at 32 bytes where coordinates are 32 bits wide.
    pub pad: u8,
}

impl LinearBVHNode {
    /// A leaf.
    pub fn new_leaf_node(bounds: Bounds3i, offset: u32, n_primitives: u16) -> (node: LinearBVHNode)
        ensures
            node == (LinearBVHNode { bounds, offset, n_primitives, axis: 0, pad: 0 }),
    {
        LinearBVHNode { bounds, offset, n_primitives, axis: 0, pad: 0 }
    }

    /// An interior node whose second child is at index `offset`.
    pub fn new_interior_node(bounds: Bounds3i, offset: u32, axis: u8) -> (node: LinearBVHNode)
        ensures
            node == (LinearBVHNode { bounds, offset, n_primitives: 0, axis, pad: 0 }),
    {
        LinearBVHNode { bounds, offset, axis, n_primitives: 0, pad: 0 }
    }
}

impl Default for LinearBVHNode {
    fn default() -> (node: LinearBVHNode)
        ensures
            node == (LinearBVHNode {
                bounds: Bounds3i::empty_spec(),
                offset: 0,
                n_primitives: 0,
                axis: 0,
                pad: 0,
            }),
    {
        LinearBVHNode { bounds: Bounds3i::empty(), offset: 0, n_primitives: 0, axis: 0, pad: 0 }
    }
}

/// A subtree that covers records holds at least one primitive, and has fewer
/// than twice as many nodes as primitives.
pub proof fn lemma_covers_counts(node: &BVHBuildNode, infos: Seq<BVHPrimitiveInfo>, start: int)
    requires
        node.covers(infos, start),
    ensures
        node.count() >= 1,
        node.node_count() <= 2 * node.count() - 1,
        0 <= start,
        start + node.count() <= infos.len(),
    decreases node,
{
    match &node.children {
        None => {},
        Some((c0, c1)) => {
            lemma_covers_counts(c0, infos, start);
            lemma_covers_counts(c1, infos, start + c0.count());
        },
    }
}

/// The box of a subtree is the union of the boxes of the records it covers.
pub proof fn lemma_covers_bounds(node: &BVHBuildNode, infos: Seq<BVHPrimitiveInfo>, start: int)
    requires
        node.covers(infos, start),
        all_wf(infos),
    ensures
        node.bounds == Bounds3i::union_of(boxes(infos, start, start + node.count())),
    decreases node,
{
    match &node.children {
        None => {},
        Some((c0, c1)) => {
            lemma_covers_counts(c0, infos, start);
            lemma_covers_counts(c1, infos, start + c0.count());
            lemma_covers_bounds(c0, infos, start);
            lemma_covers_bounds(c1, infos, start + c0.count());
            let mid = start + c0.count();
            let stop = mid + c1.count();
            let left = boxes(infos, start, mid);
            let right = boxes(infos, mid, stop);
            assert(left + right =~= boxes(infos, start, stop));
            crate::geometry::lemma_union_of_concat(left, right);
        },
    }
}

/// Whether a subtree covers records depends only on the records it covers.
pub proof fn lemma_covers_frame(
    node: &BVHBuildNode,
    infos: Seq<BVHPrimitiveInfo>,
    other: Seq<BVHPrimitiveInfo>,
    start: int,
)
    requires
        node.covers(infos, start),
        other.len() == infos.len(),
        forall|p: int| start <= p < start + node.count() ==> other[p] == infos[p],
    ensures
        node.covers(other, start),
    decreases node,
{
    match &node.children {
        None => {
            assert(boxes(infos, start, start + node.n_primitives) =~= boxes(
                other,
                start,
                start + node.n_primitives,
            ));
        },
        Some((c0, c1)) => {
            lemma_covers_counts(c0, infos, start);
            lemma_covers_counts(c1, infos, start + c0.count());
            lemma_covers_frame(c0, infos, other, start);
            lemma_covers_frame(c1, infos, other, start + c0.count());
        },
    }
}

} // verus!
