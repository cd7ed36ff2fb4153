//! The accelerator: a hierarchy built once over a collection of primitives
//! and then queried with rays.

use vstd::prelude::*;
use std::sync::Arc;
use crate::geometry::{lemma_union_of_in_range, lemma_union_of_same_boxes, Axis, Bounds3i};
use crate::interaction::SurfaceInteraction;
use crate::primitive::{within_extent, Primitive};
use crate::ray::{
    lemma_holds_at_enclosing,
    lemma_le_total,
    lemma_le_transitive,
    lemma_point_inside_overlaps,
    Ray,
    RayParam,
};
use crate::bvh::clustered::{clustered_from, hlbvh_build};
use crate::bvh::common::{
    all_wf,
    boxes,
    lemma_covers_counts,
    BVHBuildNode,
    BVHPrimitiveInfo,
    LinearBVHNode,
    SplitMethod,
};
use crate::bvh::flatten::{
    flatten_bvh_tree,
    halved_from,
    laid_out,
    lemma_laid_out_sizes,
    mirrors,
    prims_under,
    span,
};
use crate::bvh::partition::{numbers_distinct, occurs, rearranged};
use crate::bvh::recursive::{built_from, recursive_build, MAX_PRIMITIVES};

verus! {

/// The most primitives that `max_prims_in_node` is taken to ask for.
pub const MAX_PRIMS_IN_NODE: usize = 255;

/// The number of primitives in a node that a caller without a preference
/// asks for.
pub const DEFAULT_MAX_PRIMS_IN_NODE: usize = 4;

/// `s` holds each of the numbers below its length exactly once.
pub open spec fn is_permutation(s: Seq<usize>) -> bool {
    &&& forall|p: int| 0 <= p < s.len() ==> #[trigger] s[p] < s.len()
    &&& forall|p: int, q: int| 0 <= p < q < s.len() ==> #[trigger] s[p] != #[trigger] s[q]
    &&& forall|k: int| 0 <= k < s.len() ==> #[trigger] s.contains(k as usize)
}

/// What a builder knows of `prims` before it rearranges anything: the record
/// of each primitive at the primitive's index.
pub open spec fn first_records<P: Primitive>(prims: Seq<P>) -> Seq<BVHPrimitiveInfo> {
    Seq::new(
        prims.len(),
        |k: int|
            BVHPrimitiveInfo {
                primitive_number: k as usize,
                bounds: prims[k].bounds(),
                centroid: crate::geometry::Point3i {
                    x: (prims[k].bounds().p_min.x + prims[k].bounds().p_max.x) as i64,
                    y: (prims[k].bounds().p_min.y + prims[k].bounds().p_max.y) as i64,
                    z: (prims[k].bounds().p_min.z + prims[k].bounds().p_max.z) as i64,
                },
            },
    )
}

/// The bounding boxes of `prims`, in their order.
pub open spec fn primitive_boxes<P: Primitive>(prims: Seq<P>) -> Seq<Bounds3i> {
    Seq::new(prims.len(), |k: int| prims[k].bounds())
}

/// Node `i` is a leaf whose range of the ordered primitives holds position
/// `p`.
pub open spec fn leaf_holds(nodes: Seq<LinearBVHNode>, i: int, p: int) -> bool {
    &&& 0 <= i < nodes.len()
    &&& nodes[i].n_primitives > 0
    &&& nodes[i].offset <= p < nodes[i].offset + nodes[i].n_primitives
}

/// Where the records begin that the subtree of node `i` covers, for a node
/// `i` of the subtree of `root`, whose records begin at `start`.
pub open spec fn start_of(nodes: Seq<LinearBVHNode>, root: int, start: int, i: int) -> int
    decreases nodes.len() - root,
{
    if 0 <= root < nodes.len() && root < i && nodes[root].n_primitives == 0 && root + 1
        < nodes[root].offset < nodes.len() {
        if i < nodes[root].offset {
            start_of(nodes, root + 1, start, i)
        } else {
            start_of(nodes, nodes[root].offset as int, start + prims_under(nodes, root + 1), i)
        }
    } else {
        start
    }
}

/// Every node of a subtree that is laid out is the root of a subtree that is
/// laid out, over records within those of the whole.
pub proof fn lemma_subtree_at(
    nodes: Seq<LinearBVHNode>,
    infos: Seq<BVHPrimitiveInfo>,
    root: int,
    start: int,
    i: int,
)
    requires
        laid_out(nodes, infos, root, start),
        root <= i < root + span(nodes, root),
    ensures
        laid_out(nodes, infos, i, start_of(nodes, root, start, i)),
        start <= start_of(nodes, root, start, i),
        start_of(nodes, root, start, i) + prims_under(nodes, i) <= start + prims_under(
            nodes,
            root,
        ),
        halved_from(nodes, root) ==> halved_from(nodes, i),
    decreases nodes.len() - root,
{
    if i != root {
        let second = nodes[root].offset as int;
        lemma_laid_out_sizes(nodes, infos, root + 1, start);
        lemma_laid_out_sizes(nodes, infos, second, start + prims_under(nodes, root + 1));
        if i < second {
            lemma_subtree_at(nodes, infos, root + 1, start, i);
        } else {
            lemma_subtree_at(nodes, infos, second, start + prims_under(nodes, root + 1), i);
        }
    }
}

/// The box of a subtree that is laid out is within the coordinate range and
/// encloses the box of each record that the subtree covers.
pub proof fn lemma_subtree_encloses(
    nodes: Seq<LinearBVHNode>,
    infos: Seq<BVHPrimitiveInfo>,
    i: int,
    start: int,
    p: int,
)
    requires
        laid_out(nodes, infos, i, start),
        all_wf(infos),
        start <= p < start + prims_under(nodes, i),
    ensures
        nodes[i].bounds.in_range(),
        nodes[i].bounds.encloses(infos[p].bounds),
    decreases nodes.len() - i,
{
    lemma_subtree_in_range(nodes, infos, i, start);
    if nodes[i].n_primitives > 0 {
        let s = boxes(infos, start, start + nodes[i].n_primitives);
        crate::geometry::lemma_union_of_encloses(s, p - start);
    } else {
        let second = nodes[i].offset as int;
        let mid = start + prims_under(nodes, i + 1);
        if p < mid {
            lemma_subtree_encloses(nodes, infos, i + 1, start, p);
        } else {
            lemma_subtree_encloses(nodes, infos, second, mid, p);
        }
    }
}

/// The box of a subtree that is laid out is within the coordinate range.
pub proof fn lemma_subtree_in_range(
    nodes: Seq<LinearBVHNode>,
    infos: Seq<BVHPrimitiveInfo>,
    i: int,
    start: int,
)
    requires
        laid_out(nodes, infos, i, start),
        all_wf(infos),
    ensures
        nodes[i].bounds.in_range(),
    decreases nodes.len() - i,
{
    if nodes[i].n_primitives > 0 {
        let s = boxes(infos, start, start + nodes[i].n_primitives);
        assert forall|k: int| 0 <= k < s.len() implies (#[trigger] s[k]).in_range() by {
            assert(infos[start + k].wf());
        }
        lemma_union_of_in_range(s);
    } else {
        let second = nodes[i].offset as int;
        lemma_subtree_in_range(nodes, infos, i + 1, start);
        lemma_subtree_in_range(nodes, infos, second, start + prims_under(nodes, i + 1));
    }
}

/// The box of a subtree that is laid out is the union of the boxes of the
/// records that it covers.
pub proof fn lemma_subtree_bounds(
    nodes: Seq<LinearBVHNode>,
    infos: Seq<BVHPrimitiveInfo>,
    i: int,
    start: int,
)
    requires
        laid_out(nodes, infos, i, start),
        all_wf(infos),
    ensures
        nodes[i].bounds == Bounds3i::union_of(boxes(infos, start, start + prims_under(nodes, i))),
    decreases nodes.len() - i,
{
    if nodes[i].n_primitives == 0 {
        let second = nodes[i].offset as int;
        let mid = start + prims_under(nodes, i + 1);
        let stop = mid + prims_under(nodes, second);
        lemma_laid_out_sizes(nodes, infos, i + 1, start);
        lemma_laid_out_sizes(nodes, infos, second, mid);
        lemma_subtree_bounds(nodes, infos, i + 1, start);
        lemma_subtree_bounds(nodes, infos, second, mid);
        let left = boxes(infos, start, mid);
        let right = boxes(infos, mid, stop);
        assert(left + right =~= boxes(infos, start, stop));
        assert forall|k: int| 0 <= k < left.len() implies (#[trigger] left[k]).in_range() by {
            assert(infos[start + k].wf());
        }
        crate::geometry::lemma_union_of_concat(left, right);
    }
}

/// The leaf of the subtree of `root` whose range holds position `p`.
pub open spec fn leaf_of(nodes: Seq<LinearBVHNode>, root: int, start: int, p: int) -> int
    decreases nodes.len() - root,
{
    if 0 <= root < nodes.len() && nodes[root].n_primitives == 0 && root + 1 < nodes[root].offset
        < nodes.len() {
        if p < start + prims_under(nodes, root + 1) {
            leaf_of(nodes, root + 1, start, p)
        } else {
            leaf_of(nodes, nodes[root].offset as int, start + prims_under(nodes, root + 1), p)
        }
    } else {
        root
    }
}

/// Each position that a subtree covers is held by the leaf `leaf_of` of the
/// subtree.
pub proof fn lemma_leaf_exists(
    nodes: Seq<LinearBVHNode>,
    infos: Seq<BVHPrimitiveInfo>,
    root: int,
    start: int,
    p: int,
)
    requires
        laid_out(nodes, infos, root, start),
        start <= p < start + prims_under(nodes, root),
    ensures
        leaf_holds(nodes, leaf_of(nodes, root, start, p), p),
        root <= leaf_of(nodes, root, start, p) < root + span(nodes, root),
    decreases nodes.len() - root,
{
    if nodes[root].n_primitives == 0 {
        let second = nodes[root].offset as int;
        let mid = start + prims_under(nodes, root + 1);
        lemma_laid_out_sizes(nodes, infos, root + 1, start);
        lemma_laid_out_sizes(nodes, infos, second, mid);
        if p < mid {
            lemma_leaf_exists(nodes, infos, root + 1, start, p);
        } else {
            lemma_leaf_exists(nodes, infos, second, mid, p);
        }
    }
}

/// A leaf of a subtree holds only positions that the subtree covers, and no
/// position is held by two leaves of the subtree.
pub proof fn lemma_leaf_unique(
    nodes: Seq<LinearBVHNode>,
    infos: Seq<BVHPrimitiveInfo>,
    root: int,
    start: int,
    j: int,
    p: int,
)
    requires
        laid_out(nodes, infos, root, start),
        root <= j < root + span(nodes, root),
        leaf_holds(nodes, j, p),
    ensures
        start <= p < start + prims_under(nodes, root),
        j == leaf_of(nodes, root, start, p),
    decreases nodes.len() - root,
{
    if nodes[root].n_primitives == 0 {
        let second = nodes[root].offset as int;
        let mid = start + prims_under(nodes, root + 1);
        lemma_laid_out_sizes(nodes, infos, root + 1, start);
        lemma_laid_out_sizes(nodes, infos, second, mid);
        if j < second {
            lemma_leaf_unique(nodes, infos, root + 1, start, j, p);
        } else {
            lemma_leaf_unique(nodes, infos, second, mid, j, p);
        }
    }
}

/// A bounding volume hierarchy over a collection of primitives.
///
/// The primitives stay in the order in which they were given. The hierarchy
/// holds an ordering of them, in which the primitives of each leaf stand
/// together, and the nodes in depth-first order.
pub struct BVHAccel<P: Primitive> {
    primitives: Vec<P>,
    max_prims_in_node: usize,
    split_method: SplitMethod,
    ordered: Vec<usize>,
    nodes: Vec<LinearBVHNode>,
    infos: Ghost<Seq<BVHPrimitiveInfo>>,
    tree: Ghost<Option<Arc<BVHBuildNode>>>,
}

impl<P: Primitive> BVHAccel<P> {
    /// The primitives, in the order in which they were given.
    pub closed spec fn primitives_spec(&self) -> Seq<P> {
        self.primitives@
    }

    /// The ordering of the primitives: at each position the index of a
    /// primitive.
    pub closed spec fn ordering(&self) -> Seq<usize> {
        self.ordered@
    }

    /// The nodes in depth-first order.
    pub closed spec fn layout(&self) -> Seq<LinearBVHNode> {
        self.nodes@
    }

    /// How the hierarchy was built.
    pub closed spec fn split_method_spec(&self) -> SplitMethod {
        self.split_method
    }

    /// The number of primitives below which the surface area heuristic
    /// keeps a range in one leaf.
    pub closed spec fn max_prims_spec(&self) -> usize {
        self.max_prims_in_node
    }

    /// What the builder knew of the primitive at each position of the
    /// ordering.
    pub closed spec fn records(&self) -> Seq<BVHPrimitiveInfo> {
        self.infos@
    }

    /// The tree that the nodes were flattened from; none where there are no
    /// primitives.
    pub closed spec fn tree(&self) -> Option<Arc<BVHBuildNode>> {
        self.tree@
    }

    /// The ordering holds each primitive once; the record at each position is
    /// that of the primitive there; and the nodes are laid out over all the
    /// records, or there are none where there are no primitives. A hierarchy
    /// built by equal counts is halved at every interior node.
    #[verifier::type_invariant]
    pub closed spec fn wf(self) -> bool {
        let n = self.primitives@.len();
        &&& n <= MAX_PRIMITIVES
        &&& self.infos@.len() == n
        &&& self.ordered@.len() == n
        &&& all_wf(self.infos@)
        &&& forall|p: int|
            0 <= p < n ==> {
                &&& self.ordered@[p] == (#[trigger] self.infos@[p]).primitive_number
                &&& self.ordered@[p] < n
                &&& self.infos@[p].bounds == self.primitives@[self.ordered@[p] as int].bounds()
            }
        &&& is_permutation(self.ordered@)
        &&& n == 0 ==> self.nodes@.len() == 0
        &&& n > 0 ==> {
            &&& laid_out(self.nodes@, self.infos@, 0, 0)
            &&& span(self.nodes@, 0) == self.nodes@.len()
            &&& prims_under(self.nodes@, 0) == n
            &&& self.tree@ matches Some(t) && mirrors(&t, self.nodes@, 0)
        }
        &&& self.split_method == SplitMethod::EqualCounts ==> halved_from(self.nodes@, 0)
    }

    /// The union of the boxes of all primitives; the canonical empty box
    /// where there are none.
    pub open spec fn world_bound_spec(&self) -> Bounds3i {
        Bounds3i::union_of(primitive_boxes(self.primitives_spec()))
    }

    /// Builds the hierarchy over `primitives`.
    ///
    /// `max_prims_in_node` counts for at most `MAX_PRIMS_IN_NODE`.
    #[verifier::rlimit(40)]
    pub fn new(primitives: Vec<P>, max_prims_in_node: usize, split_method: SplitMethod) -> (accel:
        Self)
        requires
            primitives.len() <= MAX_PRIMITIVES,
        ensures
            accel.wf(),
            accel.primitives_spec() == primitives@,
            accel.split_method_spec() == split_method,
            accel.max_prims_spec() == if max_prims_in_node < MAX_PRIMS_IN_NODE {
                max_prims_in_node
            } else {
                MAX_PRIMS_IN_NODE
            },
            primitives.len() == 0 ==> accel.layout().len() == 0,
            rearranged(
                accel.records(),
                first_records(primitives@),
                0,
                primitives.len() as int,
            ),
            primitives.len() > 0 ==> (accel.tree() matches Some(t) && mirrors(&t, accel.layout(), 0)
                && t.covers(accel.records(), 0) && (split_method != SplitMethod::HLBVH
                ==> built_from(
                &t,
                first_records(primitives@),
                0,
                primitives.len() as int,
                accel.max_prims_spec(),
                split_method,
            )) && (split_method == SplitMethod::HLBVH ==> clustered_from(
                &t,
                first_records(primitives@),
                accel.max_prims_spec(),
            ))),
    {
        let max_prims = if max_prims_in_node < MAX_PRIMS_IN_NODE {
            max_prims_in_node
        } else {
            MAX_PRIMS_IN_NODE
        };
        let n = primitives.len();
        let mut infos: Vec<BVHPrimitiveInfo> = Vec::with_capacity(n);
        let mut i: usize = 0;
        while i < n
            invariant
                i <= n == primitives.len(),
                infos.len() == i,
                forall|k: int|
                    0 <= k < i ==> {
                        &&& (#[trigger] infos@[k]).primitive_number == k
                        &&& infos@[k].bounds == primitives@[k].bounds()
                        &&& infos@[k].wf()
                    },
            decreases n - i,
        {
            let b = primitives[i].world_bound();
            proof {
                primitives@[i as int].bounds_in_range();
            }
            infos.push(BVHPrimitiveInfo::new(i, b));
            i = i + 1;
        }
        let mut nodes: Vec<LinearBVHNode> = Vec::new();
        let mut ordered: Vec<usize> = Vec::with_capacity(n);
        if n == 0 {
            proof {
                assert(infos@ =~= first_records(primitives@));
                crate::bvh::partition::lemma_rearranged_same(infos@, 0, 0);
            }
            return BVHAccel {
                primitives,
                max_prims_in_node: max_prims,
                split_method,
                ordered,
                nodes,
                infos: Ghost(infos@),
                tree: Ghost(None),
            };
        }
        let ghost given = infos@;
        assert(numbers_distinct(given));
        assert(given =~= first_records(primitives@));
        let mut total_nodes: usize = 0;
        let root = match split_method {
            SplitMethod::HLBVH => hlbvh_build(&mut infos, max_prims, &mut total_nodes),
            _ => recursive_build(&mut infos, 0, n, max_prims, split_method, &mut total_nodes),
        };
        proof {
            lemma_covers_counts(&root, infos@, 0);
        }
        flatten_bvh_tree(&root, &mut nodes, Ghost(infos@), Ghost(0));
        let mut p: usize = 0;
        while p < n
            invariant
                p <= n == infos.len(),
                ordered.len() == p,
                forall|k: int| 0 <= k < p ==> #[trigger] ordered@[k] == infos@[k].primitive_number,
            decreases n - p,
        {
            ordered.push(infos[p].primitive_number);
            p = p + 1;
        }
        proof {
            assert forall|p: int| 0 <= p < n implies {
                &&& ordered@[p] == (#[trigger] infos@[p]).primitive_number
                &&& ordered@[p] < n
                &&& infos@[p].bounds == primitives@[ordered@[p] as int].bounds()
            } by {
                assert(occurs(given, 0, n as int, infos@[p]));
                let q = choose|q: int| 0 <= q < n && #[trigger] given[q] == infos@[p];
                assert(given[q].primitive_number == q);
            }
            assert forall|k: int| 0 <= k < n implies #[trigger] ordered@.contains(k as usize) by {
                assert(occurs(infos@, 0, n as int, given[k]));
                let q = choose|q: int| 0 <= q < n && #[trigger] infos@[q] == given[k];
                assert(ordered@[q] == k);
            }
            assert forall|p: int, q: int| 0 <= p < q < n implies #[trigger] ordered@[p]
                != #[trigger] ordered@[q] by {
                assert(infos@[p].primitive_number != infos@[q].primitive_number);
            }
        }
        BVHAccel {
            primitives,
            max_prims_in_node: max_prims,
            split_method,
            ordered,
            nodes,
            infos: Ghost(infos@),
            tree: Ghost(Some(root)),
        }
    }

    /// The primitives, in the order in which they were given.
    pub fn primitives(&self) -> (r: &Vec<P>)
        ensures
            r@ == self.primitives_spec(),
    {
        &self.primitives
    }

    /// The ordering of the primitives.
    pub fn ordered_primitives(&self) -> (r: &Vec<usize>)
        ensures
            r@ == self.ordering(),
    {
        &self.ordered
    }

    /// The nodes in depth-first order.
    pub fn nodes(&self) -> (r: &Vec<LinearBVHNode>)
        ensures
            r@ == self.layout(),
    {
        &self.nodes
    }

    /// How the hierarchy was built.
    pub fn split_method(&self) -> (r: SplitMethod)
        ensures
            r == self.split_method_spec(),
    {
        self.split_method
    }

    /// The number of primitives below which the surface area heuristic keeps
    /// a range in one leaf.
    pub fn max_prims_in_node(&self) -> (r: usize)
        ensures
            r == self.max_prims_spec(),
    {
        self.max_prims_in_node
    }

    /// The box of the root: the union of the boxes of all primitives, and the
    /// canonical empty box where there are none.
    pub fn world_bound(&self) -> (b: Bounds3i)
        ensures
            b == self.world_bound_spec(),
            self.primitives_spec().len() == 0 ==> b == Bounds3i::empty_spec(),
    {
        proof {
            use_type_invariant(self);
            self.lemma_root_bounds();
        }
        if self.nodes.len() > 0 {
            self.nodes[0].bounds
        } else {
            Bounds3i::empty()
        }
    }

    /// The ordering names at each position the primitive of the record
    /// there, and the nodes are laid out over the records.
    pub proof fn lemma_ordering_follows_records(&self)
        requires
            self.wf(),
        ensures
            self.records().len() == self.ordering().len(),
            forall|p: int|
                0 <= p < self.ordering().len() ==> self.ordering()[p] == (
                #[trigger] self.records()[p]).primitive_number && self.records()[p].bounds
                    == self.primitives_spec()[self.ordering()[p] as int].bounds(),
            self.ordering().len() > 0 ==> laid_out(self.layout(), self.records(), 0, 0),
    {
    }

    /// The ordering holds the index of each primitive exactly once.
    pub proof fn lemma_ordering_is_permutation(&self)
        requires
            self.wf(),
        ensures
            self.ordering().len() == self.primitives_spec().len(),
            is_permutation(self.ordering()),
    {
    }

    /// The box of the root is the union of the boxes of all primitives; where
    /// there are no primitives there is no node.
    pub proof fn lemma_root_bounds(&self)
        requires
            self.wf(),
        ensures
            self.primitives_spec().len() == 0 ==> self.layout().len() == 0
                && self.world_bound_spec() == Bounds3i::empty_spec(),
            self.primitives_spec().len() > 0 ==> self.layout().len() > 0
                && self.layout()[0].bounds == self.world_bound_spec(),
    {
        let n = self.primitives@.len() as int;
        if n > 0 {
            let nodes = self.nodes@;
            let infos = self.infos@;
            lemma_laid_out_sizes(nodes, infos, 0, 0);
            lemma_subtree_bounds(nodes, infos, 0, 0);
            let s = boxes(infos, 0, n);
            let t = primitive_boxes(self.primitives@);
            assert forall|i: int| 0 <= i < s.len() implies (#[trigger] s[i]).in_range()
                && t.contains(s[i]) by {
                assert(infos[i].wf());
                assert(t[self.ordered@[i] as int] == s[i]);
            }
            assert forall|k: int| 0 <= k < t.len() implies (#[trigger] t[k]).in_range()
                && s.contains(t[k]) by {
                assert(self.ordered@.contains(k as usize));
                let p = choose|p: int| 0 <= p < n && self.ordered@[p] == k as usize;
                assert(infos[p].wf());
                assert(s[p] == t[k]);
            }
            lemma_union_of_same_boxes(s, t);
        } else {
            assert(primitive_boxes(self.primitives@) =~= Seq::empty());
        }
    }

    /// The box of every interior node is the union of the boxes of its two
    /// children: of the node that follows it and of the node at its offset.
    pub proof fn lemma_interior_bounds(&self, i: int)
        requires
            self.wf(),
            0 <= i < self.layout().len(),
            self.layout()[i].n_primitives == 0,
        ensures
            i + 1 < self.layout()[i].offset < self.layout().len(),
            self.layout()[i].bounds == self.layout()[i + 1].bounds.union_spec(
                self.layout()[self.layout()[i].offset as int].bounds,
            ),
    {
        lemma_subtree_at(self.nodes@, self.infos@, 0, 0, i);
    }

    /// The ranges of the leaves divide the positions of the ordering among
    /// them: each leaf's range lies within the ordering, each position is held
    /// by a leaf, and by one only.
    pub proof fn lemma_leaves_partition(&self, p: int, i: int, j: int)
        requires
            self.wf(),
        ensures
            0 <= p < self.ordering().len() ==> exists|l: int| leaf_holds(self.layout(), l, p),
            leaf_holds(self.layout(), i, p) ==> 0 <= p < self.ordering().len(),
            leaf_holds(self.layout(), i, p) && leaf_holds(self.layout(), j, p) ==> i == j,
    {
        let nodes = self.nodes@;
        let infos = self.infos@;
        if 0 <= p < self.ordered@.len() {
            lemma_leaf_exists(nodes, infos, 0, 0, p);
            let l = leaf_of(nodes, 0, 0, p);
            assert(leaf_holds(self.layout(), l, p));
        }
        if leaf_holds(nodes, i, p) {
            lemma_leaf_unique(nodes, infos, 0, 0, i, p);
        }
        if leaf_holds(nodes, j, p) {
            lemma_leaf_unique(nodes, infos, 0, 0, j, p);
        }
    }

    /// In a hierarchy built by equal counts, every interior node over `k`
    /// primitives has `k / 2` of them, rounded down, under its first child and
    /// the others under its second.
    pub proof fn lemma_equal_counts_halves(&self, i: int)
        requires
            self.wf(),
            self.split_method_spec() == SplitMethod::EqualCounts,
            0 <= i < self.layout().len(),
            self.layout()[i].n_primitives == 0,
        ensures
            prims_under(self.layout(), i + 1) == prims_under(self.layout(), i) / 2,
            prims_under(self.layout(), self.layout()[i].offset as int) == prims_under(
                self.layout(),
                i,
            ) - prims_under(self.layout(), i) / 2,
    {
        lemma_subtree_at(self.nodes@, self.infos@, 0, 0, i);
    }
}

/// The number of nodes in the subtrees whose roots are on the stack.
pub open spec fn pending_span(nodes: Seq<LinearBVHNode>, stack: Seq<usize>) -> int
    decreases stack.len(),
{
    if stack.len() == 0 {
        0
    } else {
        pending_span(nodes, stack.drop_last()) + span(nodes, stack.last() as int)
    }
}

/// Position `p` of the ordering is covered by a subtree whose root is on the
/// stack; `starts` tells where the records of each of them begin.
pub open spec fn pending(nodes: Seq<LinearBVHNode>, stack: Seq<usize>, starts: Seq<int>, p: int) -> bool {
    exists|s: int|
        0 <= s < stack.len() && #[trigger] starts[s] <= p < starts[s] + prims_under(
            nodes,
            stack[s] as int,
        )
}

/// Every subtree on the stack is laid out.
pub open spec fn stack_laid_out(
    nodes: Seq<LinearBVHNode>,
    infos: Seq<BVHPrimitiveInfo>,
    stack: Seq<usize>,
    starts: Seq<int>,
) -> bool {
    &&& starts.len() == stack.len()
    &&& forall|s: int|
        0 <= s < stack.len() ==> laid_out(nodes, infos, #[trigger] stack[s] as int, starts[s])
}

/// The subtrees on a stack that is laid out hold no fewer nodes than the
/// stack has entries.
pub proof fn lemma_pending_span_bound(
    nodes: Seq<LinearBVHNode>,
    infos: Seq<BVHPrimitiveInfo>,
    stack: Seq<usize>,
    starts: Seq<int>,
)
    requires
        stack_laid_out(nodes, infos, stack, starts),
    ensures
        pending_span(nodes, stack) >= stack.len(),
    decreases stack.len(),
{
    if stack.len() > 0 {
        let top = stack.len() - 1;
        lemma_laid_out_sizes(nodes, infos, stack[top] as int, starts[top]);
        lemma_pending_span_bound(nodes, infos, stack.drop_last(), starts.drop_last());
    }
}

impl<P: Primitive> BVHAccel<P> {
    /// The hit of primitive `k` by `ray`, if it lies before the ray's extent.
    pub open spec fn hit_of(&self, k: int, ray: Ray) -> Option<SurfaceInteraction> {
        within_extent(self.primitives_spec()[k].nearest(ray), ray.t_max)
    }

    /// Some primitive is hit by `ray` before the ray's extent.
    pub open spec fn any_hit(&self, ray: Ray) -> bool {
        exists|k: int|
            0 <= k < self.primitives_spec().len() && (#[trigger] self.hit_of(k, ray)) is Some
    }

    /// `r` is what a closest-hit query of `ray` owes: the hit of some
    /// primitive such that no primitive is hit at a smaller parameter, or
    /// nothing where no primitive is hit before the ray's extent.
    pub open spec fn is_closest(&self, ray: Ray, r: Option<SurfaceInteraction>) -> bool {
        match r {
            Some(si) => {
                &&& exists|k: int|
                    0 <= k < self.primitives_spec().len() && #[trigger] self.hit_of(k, ray) == Some(
                        si,
                    )
                &&& forall|j: int|
                    0 <= j < self.primitives_spec().len() ==> ((#[trigger] self.hit_of(
                        j,
                        ray,
                    )) matches Some(sj) ==> si.t.le(sj.t))
            },
            None => forall|j: int|
                0 <= j < self.primitives_spec().len() ==> (#[trigger] self.hit_of(j, ray)) is None,
        }
    }

    /// The primitive at position `p` of the ordering is not hit by `ray`
    /// before both the ray's extent and `cur`.
    pub closed spec fn settled(&self, p: int, ray: Ray, cur: RayParam) -> bool {
        self.primitives@[self.ordered@[p] as int].nearest(ray) matches Some(sj) ==> (sj.t.lt(
            ray.t_max,
        ) ==> cur.le(sj.t))
    }

    /// `cur` is the extent to which a query of `ray` has been shortened and
    /// `best` the hit that shortened it: the hit of some primitive at `cur`,
    /// or none while `cur` is the extent of `ray`.
    pub closed spec fn tracks(&self, ray: Ray, cur: RayParam, best: Option<SurfaceInteraction>) -> bool {
        &&& cur.wf()
        &&& cur.le(ray.t_max)
        &&& match best {
            Some(si) => cur == si.t && exists|k: int|
                0 <= k < self.primitives@.len() && #[trigger] self.hit_of(k, ray) == Some(si),
            None => cur == ray.t_max,
        }
    }

    /// What is settled stays settled when the extent shrinks.
    proof fn lemma_settled_shrinks(&self, p: int, ray: Ray, cur: RayParam, next: RayParam)
        requires
            self.wf(),
            ray.wf(),
            0 <= p < self.ordered@.len(),
            cur.wf(),
            next.wf(),
            next.le(cur),
            self.settled(p, ray, cur),
        ensures
            self.settled(p, ray, next),
    {
        let prim = self.primitives@[self.ordered@[p] as int];
        prim.nearest_is_bounded(ray, cur);
        match prim.nearest(ray) {
            Some(sj) => {
                if sj.t.lt(ray.t_max) {
                    lemma_le_transitive(next, cur, sj.t);
                }
            },
            None => {},
        }
    }

    /// A subtree whose box the shortened ray does not pass through holds no
    /// primitive that is hit before the shortened extent.
    proof fn lemma_pruned(&self, i: int, start: int, ray: Ray, cur: RayParam, p: int)
        requires
            self.wf(),
            ray.wf(),
            cur.wf(),
            laid_out(self.nodes@, self.infos@, i, start),
            start <= p < start + prims_under(self.nodes@, i),
            !self.nodes@[i].bounds.ray_overlaps(ray.with_t_max(cur)),
        ensures
            self.settled(p, ray, cur),
    {
        lemma_laid_out_sizes(self.nodes@, self.infos@, i, start);
        lemma_subtree_encloses(self.nodes@, self.infos@, i, start, p);
        let prim = self.primitives@[self.ordered@[p] as int];
        prim.nearest_is_bounded(ray, cur);
        assert(self.infos@[p].bounds == prim.bounds());
        match prim.nearest(ray) {
            Some(sj) => {
                if sj.t.lt(ray.t_max) && !cur.le(sj.t) {
                    lemma_holds_at_enclosing(
                        prim.bounds(),
                        self.nodes@[i].bounds,
                        ray.o,
                        ray.d,
                        sj.t,
                    );
                    lemma_point_inside_overlaps(self.nodes@[i].bounds, ray.with_t_max(cur), sj.t);
                }
            },
            None => {},
        }
    }

    /// Once every position of the ordering is settled, what was tracked is
    /// the closest hit.
    proof fn lemma_all_settled(&self, ray: Ray, cur: RayParam, best: Option<SurfaceInteraction>)
        requires
            self.wf(),
            ray.wf(),
            self.tracks(ray, cur, best),
            forall|p: int| 0 <= p < self.ordered@.len() ==> #[trigger] self.settled(p, ray, cur),
        ensures
            self.is_closest(ray, best),
    {
        let n = self.primitives@.len() as int;
        assert forall|j: int| 0 <= j < n implies ((#[trigger] self.hit_of(j, ray)) matches Some(sj)
            ==> cur.le(sj.t)) by {
            assert(self.ordered@.contains(j as usize));
            let p = choose|p: int| 0 <= p < n && self.ordered@[p] == j as usize;
            assert(self.settled(p, ray, cur));
        }
    }

    /// Tests the ray against the primitives of the leaf `node`, the node at
    /// index `i`, and shortens the ray to each nearer hit.
    fn test_leaf(
        &self,
        node: &LinearBVHNode,
        ray: &mut Ray,
        best: &mut Option<SurfaceInteraction>,
        Ghost(given): Ghost<Ray>,
        Ghost(i): Ghost<int>,
    )
        requires
            self.wf(),
            given.wf(),
            *old(ray) == given.with_t_max(old(ray).t_max),
            self.tracks(given, old(ray).t_max, *old(best)),
            0 <= i < self.nodes@.len(),
            *node == self.nodes@[i],
            node.n_primitives > 0,
            laid_out(self.nodes@, self.infos@, i, node.offset as int),
        ensures
            *final(ray) == given.with_t_max(final(ray).t_max),
            self.tracks(given, final(ray).t_max, *final(best)),
            final(ray).t_max.le(old(ray).t_max),
            forall|p: int|
                node.offset <= p < node.offset + node.n_primitives ==> #[trigger] self.settled(
                    p,
                    given,
                    final(ray).t_max,
                ),
    {
        let first = node.offset as usize;
        let count = node.n_primitives as usize;
        let mut k: usize = 0;
        while k < count
            invariant
                self.wf(),
                given.wf(),
                k <= count,
                first == node.offset,
                count == node.n_primitives,
                first + count <= self.ordered@.len(),
                *ray == given.with_t_max(ray.t_max),
                self.tracks(given, ray.t_max, *best),
                ray.t_max.le(old(ray).t_max),
                old(ray).t_max.wf(),
                forall|p: int| first <= p < first + k ==> #[trigger] self.settled(p, given, ray.t_max),
            decreases count - k,
        {
            let index = self.ordered[first + k];
            let prim = &self.primitives[index];
            let ghost cur = ray.t_max;
            proof {
                prim.nearest_is_bounded(given, cur);
            }
            let found = prim.intersect(ray);
            match found {
                Some(si) => {
                    ray.t_max = si.t;
                    *best = Some(si);
                    proof {
                        lemma_le_total(si.t, cur);
                        if given.t_max.le(si.t) {
                            lemma_le_transitive(cur, given.t_max, si.t);
                        }
                        lemma_le_total(si.t, given.t_max);
                        assert(self.hit_of(index as int, given) == Some(si));
                        lemma_le_transitive(si.t, cur, old(ray).t_max);
                        assert forall|p: int| first <= p < first + k implies #[trigger] self.settled(
                            p,
                            given,
                            si.t,
                        ) by {
                            self.lemma_settled_shrinks(p, given, cur, si.t);
                        }
                    }
                },
                None => {},
            }
            k = k + 1;
        }
    }

    /// The nearest hit of `ray` among all primitives, if one lies before the
    /// ray's extent; the ray's extent is shortened to it.
    ///
    /// The nodes are visited from an explicit stack. A subtree whose box the
    /// ray, as shortened so far, does not pass through is skipped. Of the two
    /// children of an interior node, the one that the ray reaches first along
    /// the node's axis is visited first.
    #[verifier::rlimit(40)]
    pub fn intersect(&self, ray: &mut Ray) -> (r: Option<SurfaceInteraction>)
        requires
            old(ray).wf(),
        ensures
            self.is_closest(*old(ray), r),
            *final(ray) == old(ray).with_t_max(
                match r {
                    Some(si) => si.t,
                    None => old(ray).t_max,
                },
            ),
    {
        proof {
            use_type_invariant(self);
        }
        let ghost given = *ray;
        let ghost n = self.ordered@.len() as int;
        let mut best: Option<SurfaceInteraction> = None;
        let mut stack: Vec<usize> = Vec::new();
        let ghost mut starts: Seq<int> = Seq::empty();
        if self.nodes.len() > 0 {
            stack.push(0);
            proof {
                starts = starts.push(0);
                assert forall|p: int| 0 <= p < n implies pending(self.nodes@, stack@, starts, p) by {
                    assert(starts[0] <= p < starts[0] + prims_under(self.nodes@, stack@[0] as int));
                }
            }
        }
        proof {
            lemma_le_total(ray.t_max, ray.t_max);
        }
        while stack.len() > 0
            invariant
                self.wf(),
                given.wf(),
                n == self.ordered@.len(),
                *ray == given.with_t_max(ray.t_max),
                self.tracks(given, ray.t_max, best),
                stack_laid_out(self.nodes@, self.infos@, stack@, starts),
                forall|p: int|
                    0 <= p < n ==> #[trigger] self.settled(p, given, ray.t_max) || pending(
                        self.nodes@,
                        stack@,
                        starts,
                        p,
                    ),
            decreases pending_span(self.nodes@, stack@),
        {
            let ghost stack_before = stack@;
            let ghost starts_before = starts;
            let ghost cur = ray.t_max;
            proof {
                lemma_pending_span_bound(self.nodes@, self.infos@, stack@, starts);
            }
            let i = stack.pop().unwrap();
            let ghost start = starts.last();
            proof {
                starts = starts.drop_last();
                lemma_pending_span_bound(self.nodes@, self.infos@, stack@, starts);
                lemma_laid_out_sizes(self.nodes@, self.infos@, i as int, start);
                lemma_subtree_in_range(self.nodes@, self.infos@, i as int, start);
            }
            let node = self.nodes[i];
            if node.bounds.intersect_p(ray) {
                if node.n_primitives > 0 {
                    self.test_leaf(&node, ray, &mut best, Ghost(given), Ghost(i as int));
                    proof {
                        assert forall|p: int| 0 <= p < n implies #[trigger] self.settled(
                            p,
                            given,
                            ray.t_max,
                        ) || pending(self.nodes@, stack@, starts, p) by {
                            if self.settled(p, given, cur) {
                                self.lemma_settled_shrinks(p, given, cur, ray.t_max);
                            } else {
                                lemma_pending_popped(
                                    self.nodes@,
                                    stack_before,
                                    starts_before,
                                    p,
                                );
                            }
                        }
                    }
                } else {
                    let axis = Axis::from_u8(node.axis);
                    let second = node.offset as usize;
                    let ghost mid = start + prims_under(self.nodes@, i + 1);
                    if ray.d.coord(axis) < 0 {
                        stack.push(i + 1);
                        stack.push(second);
                        proof {
                            starts = starts.push(start).push(mid);
                        }
                    } else {
                        stack.push(second);
                        stack.push(i + 1);
                        proof {
                            starts = starts.push(mid).push(start);
                        }
                    }
                    proof {
                        lemma_laid_out_sizes(self.nodes@, self.infos@, i + 1, start);
                        lemma_laid_out_sizes(self.nodes@, self.infos@, second as int, mid);
                        lemma_pending_span_pushed(self.nodes@, stack_before, stack@);
                        assert forall|p: int| 0 <= p < n implies #[trigger] self.settled(
                            p,
                            given,
                            ray.t_max,
                        ) || pending(self.nodes@, stack@, starts, p) by {
                            if !self.settled(p, given, cur) {
                                lemma_pending_pushed(
                                    self.nodes@,
                                    stack_before,
                                    starts_before,
                                    stack@,
                                    starts,
                                    p,
                                );
                            }
                        }
                    }
                }
            } else {
                proof {
                    assert forall|p: int| 0 <= p < n implies #[trigger] self.settled(
                        p,
                        given,
                        ray.t_max,
                    ) || pending(self.nodes@, stack@, starts, p) by {
                        if !self.settled(p, given, cur) {
                            lemma_pending_popped(self.nodes@, stack_before, starts_before, p);
                            if start <= p < start + prims_under(self.nodes@, i as int) {
                                self.lemma_pruned(i as int, start, given, cur, p);
                            }
                        }
                    }
                }
            }
        }
        proof {
            assert forall|p: int| 0 <= p < n implies #[trigger] self.settled(
                p,
                given,
                ray.t_max,
            ) by {
                if pending(self.nodes@, stack@, starts, p) {
                }
            }
            self.lemma_all_settled(given, ray.t_max, best);
        }
        best
    }

    /// Whether a primitive of the leaf `node`, the node at index `i`, is hit
    /// by the ray before the ray's extent.
    fn test_leaf_p(&self, node: &LinearBVHNode, ray: &Ray, Ghost(i): Ghost<int>) -> (b: bool)
        requires
            self.wf(),
            ray.wf(),
            0 <= i < self.nodes@.len(),
            *node == self.nodes@[i],
            node.n_primitives > 0,
            laid_out(self.nodes@, self.infos@, i, node.offset as int),
        ensures
            b ==> self.any_hit(*ray),
            !b ==> forall|p: int|
                node.offset <= p < node.offset + node.n_primitives ==> #[trigger] self.settled(
                    p,
                    *ray,
                    ray.t_max,
                ),
    {
        let first = node.offset as usize;
        let count = node.n_primitives as usize;
        let mut k: usize = 0;
        while k < count
            invariant
                self.wf(),
                ray.wf(),
                k <= count,
                first == node.offset,
                count == node.n_primitives,
                first + count <= self.ordered@.len(),
                forall|p: int|
                    first <= p < first + k ==> #[trigger] self.settled(p, *ray, ray.t_max),
            decreases count - k,
        {
            let index = self.ordered[first + k];
            let prim = &self.primitives[index];
            if prim.intersect_p(ray) {
                proof {
                    assert(self.hit_of(index as int, *ray) is Some);
                }
                return true;
            }
            proof {
                prim.nearest_is_bounded(*ray, ray.t_max);
                match prim.nearest(*ray) {
                    Some(sj) => {
                        lemma_le_total(ray.t_max, sj.t);
                    },
                    None => {},
                }
            }
            k = k + 1;
        }
        false
    }

    /// Whether some primitive is hit by `ray` before the ray's extent.
    ///
    /// The nodes are visited as for `intersect`; the first hit that is found
    /// ends the query.
    #[verifier::rlimit(40)]
    pub fn intersect_p(&self, ray: &Ray) -> (b: bool)
        requires
            ray.wf(),
        ensures
            b == self.any_hit(*ray),
    {
        proof {
            use_type_invariant(self);
        }
        let ghost n = self.ordered@.len() as int;
        let mut stack: Vec<usize> = Vec::new();
        let ghost mut starts: Seq<int> = Seq::empty();
        if self.nodes.len() > 0 {
            stack.push(0);
            proof {
                starts = starts.push(0);
                assert forall|p: int| 0 <= p < n implies pending(self.nodes@, stack@, starts, p) by {
                    assert(starts[0] <= p < starts[0] + prims_under(self.nodes@, stack@[0] as int));
                }
            }
        }
        while stack.len() > 0
            invariant
                self.wf(),
                ray.wf(),
                n == self.ordered@.len(),
                stack_laid_out(self.nodes@, self.infos@, stack@, starts),
                forall|p: int|
                    0 <= p < n ==> #[trigger] self.settled(p, *ray, ray.t_max) || pending(
                        self.nodes@,
                        stack@,
                        starts,
                        p,
                    ),
            decreases pending_span(self.nodes@, stack@),
        {
            let ghost stack_before = stack@;
            let ghost starts_before = starts;
            proof {
                lemma_pending_span_bound(self.nodes@, self.infos@, stack@, starts);
            }
            let i = stack.pop().unwrap();
            let ghost start = starts.last();
            proof {
                starts = starts.drop_last();
                lemma_pending_span_bound(self.nodes@, self.infos@, stack@, starts);
                lemma_laid_out_sizes(self.nodes@, self.infos@, i as int, start);
                lemma_subtree_in_range(self.nodes@, self.infos@, i as int, start);
                assert(ray.with_t_max(ray.t_max) == *ray);
            }
            let node = self.nodes[i];
            if node.bounds.intersect_p(ray) {
                if node.n_primitives > 0 {
                    if self.test_leaf_p(&node, ray, Ghost(i as int)) {
                        return true;
                    }
                    proof {
                        assert forall|p: int| 0 <= p < n implies #[trigger] self.settled(
                            p,
                            *ray,
                            ray.t_max,
                        ) || pending(self.nodes@, stack@, starts, p) by {
                            if !self.settled(p, *ray, ray.t_max) {
                                lemma_pending_popped(
                                    self.nodes@,
                                    stack_before,
                                    starts_before,
                                    p,
                                );
                            }
                        }
                    }
                } else {
                    let axis = Axis::from_u8(node.axis);
                    let second = node.offset as usize;
                    let ghost mid = start + prims_under(self.nodes@, i + 1);
                    if ray.d.coord(axis) < 0 {
                        stack.push(i + 1);
                        stack.push(second);
                        proof {
                            starts = starts.push(start).push(mid);
                        }
                    } else {
                        stack.push(second);
                        stack.push(i + 1);
                        proof {
                            starts = starts.push(mid).push(start);
                        }
                    }
                    proof {
                        lemma_laid_out_sizes(self.nodes@, self.infos@, i + 1, start);
                        lemma_laid_out_sizes(self.nodes@, self.infos@, second as int, mid);
                        lemma_pending_span_pushed(self.nodes@, stack_before, stack@);
                        assert forall|p: int| 0 <= p < n implies #[trigger] self.settled(
                            p,
                            *ray,
                            ray.t_max,
                        ) || pending(self.nodes@, stack@, starts, p) by {
                            if !self.settled(p, *ray, ray.t_max) {
                                lemma_pending_pushed(
                                    self.nodes@,
                                    stack_before,
                                    starts_before,
                                    stack@,
                                    starts,
                                    p,
                                );
                            }
                        }
                    }
                }
            } else {
                proof {
                    assert forall|p: int| 0 <= p < n implies #[trigger] self.settled(
                        p,
                        *ray,
                        ray.t_max,
                    ) || pending(self.nodes@, stack@, starts, p) by {
                        if !self.settled(p, *ray, ray.t_max) {
                            lemma_pending_popped(self.nodes@, stack_before, starts_before, p);
                            if start <= p < start + prims_under(self.nodes@, i as int) {
                                self.lemma_pruned(i as int, start, *ray, ray.t_max, p);
                            }
                        }
                    }
                }
            }
        }
        proof {
            assert forall|k: int| 0 <= k < n implies (#[trigger] self.hit_of(k, *ray)) is None by {
                assert(self.ordered@.contains(k as usize));
                let p = choose|p: int| 0 <= p < n && self.ordered@[p] == k as usize;
                assert(self.settled(p, *ray, ray.t_max));
                if pending(self.nodes@, stack@, starts, p) {
                }
            }
        }
        false
    }

    /// The closest hit is a hit of a primitive: what it carries is well
    /// formed, and its parameter is finite, positive and before the ray's
    /// extent.
    pub proof fn lemma_hit_is_well_formed(&self, ray: Ray, si: SurfaceInteraction)
        requires
            ray.wf(),
            self.is_closest(ray, Some(si)),
        ensures
            si.hit.wf(),
            si.t.wf(),
            si.t.is_finite(),
            RayParam::zero_spec().lt(si.t),
            si.t.lt(ray.t_max),
    {
        let k = choose|k: int|
            0 <= k < self.primitives_spec().len() && #[trigger] self.hit_of(k, ray) == Some(si);
        self.primitives_spec()[k].nearest_is_bounded(ray, ray.t_max);
    }

    /// Over no primitives, no query reports a hit.
    pub proof fn lemma_empty_reports_nothing(&self, ray: Ray, r: Option<SurfaceInteraction>)
        requires
            self.primitives_spec().len() == 0,
        ensures
            !self.any_hit(ray),
            self.is_closest(ray, r) ==> r is None,
    {
    }

    /// An any-hit query answers yes exactly where a closest-hit query of the
    /// same ray gives a hit.
    pub proof fn lemma_any_hit_iff_closest(&self, ray: Ray, r: Option<SurfaceInteraction>)
        requires
            self.is_closest(ray, r),
        ensures
            self.any_hit(ray) == r.is_some(),
    {
        match r {
            Some(si) => {
                let k = choose|k: int|
                    0 <= k < self.primitives_spec().len() && #[trigger] self.hit_of(k, ray) == Some(
                        si,
                    );
                assert(self.hit_of(k, ray) is Some);
            },
            None => {},
        }
    }
}

/// A position that was pending and is not covered by the subtree on top of
/// the stack is pending once the top is taken off.
proof fn lemma_pending_popped(nodes: Seq<LinearBVHNode>, stack: Seq<usize>, starts: Seq<int>, p: int)
    requires
        stack.len() > 0,
        starts.len() == stack.len(),
        pending(nodes, stack, starts, p),
    ensures
        pending(nodes, stack.drop_last(), starts.drop_last(), p) || starts.last() <= p
            < starts.last() + prims_under(nodes, stack.last() as int),
{
    let s = choose|s: int|
        0 <= s < stack.len() && #[trigger] starts[s] <= p < starts[s] + prims_under(
            nodes,
            stack[s] as int,
        );
    if s < stack.len() - 1 {
        assert(starts.drop_last()[s] == starts[s]);
        assert(stack.drop_last()[s] == stack[s]);
    }
}

/// A position that was pending is pending once the interior node on top of
/// the stack has given way to its two children, in either order.
proof fn lemma_pending_pushed(
    nodes: Seq<LinearBVHNode>,
    stack: Seq<usize>,
    starts: Seq<int>,
    next: Seq<usize>,
    next_starts: Seq<int>,
    p: int,
)
    requires
        stack.len() > 0,
        starts.len() == stack.len(),
        pending(nodes, stack, starts, p),
        ({
            let i = stack.last() as int;
            let start = starts.last();
            let second = nodes[i].offset as int;
            let mid = start + prims_under(nodes, i + 1);
            &&& 0 <= i < nodes.len()
            &&& nodes[i].n_primitives == 0
            &&& i + 1 < second < nodes.len()
            &&& ((next == stack.drop_last().push((i + 1) as usize).push(second as usize)
                && next_starts == starts.drop_last().push(start).push(mid)) || (next
                == stack.drop_last().push(second as usize).push((i + 1) as usize) && next_starts
                == starts.drop_last().push(mid).push(start)))
        }),
    ensures
        pending(nodes, next, next_starts, p),
{
    let i = stack.last() as int;
    let start = starts.last();
    let second = nodes[i].offset as int;
    let mid = start + prims_under(nodes, i + 1);
    let top = stack.len() - 1;
    let s = choose|s: int|
        0 <= s < stack.len() && #[trigger] starts[s] <= p < starts[s] + prims_under(
            nodes,
            stack[s] as int,
        );
    if s < top {
        assert(next_starts[s] == starts[s]);
        assert(next[s] == stack[s]);
    } else {
        if p < mid {
            if next[top] == (i + 1) as usize {
                assert(next_starts[top] == start);
            } else {
                assert(next_starts[top + 1] == start);
                assert(next[top + 1] == (i + 1) as usize);
            }
        } else {
            if next[top] == (i + 1) as usize {
                assert(next_starts[top + 1] == mid);
                assert(next[top + 1] == second as usize);
            } else {
                assert(next_starts[top] == mid);
                assert(next[top] == second as usize);
            }
        }
    }
}

/// The two children of an interior node hold one node fewer than the node's
/// subtree: a stack on which they take the node's place holds fewer nodes.
proof fn lemma_pending_span_pushed(nodes: Seq<LinearBVHNode>, stack: Seq<usize>, next: Seq<usize>)
    requires
        stack.len() > 0,
        ({
            let i = stack.last() as int;
            let second = nodes[i].offset as int;
            &&& 0 <= i < nodes.len()
            &&& nodes[i].n_primitives == 0
            &&& i + 1 < second < nodes.len()
            &&& second == i + 1 + span(nodes, i + 1)
            &&& (next == stack.drop_last().push((i + 1) as usize).push(second as usize) || next
                == stack.drop_last().push(second as usize).push((i + 1) as usize))
        }),
    ensures
        pending_span(nodes, next) == pending_span(nodes, stack) - 1,
{
    let i = stack.last() as int;
    let second = nodes[i].offset as int;
    let rest = stack.drop_last();
    assert(next.drop_last().drop_last() =~= rest);
    assert(pending_span(nodes, next) == pending_span(nodes, next.drop_last()) + span(
        nodes,
        next.last() as int,
    ));
    assert(pending_span(nodes, next.drop_last()) == pending_span(nodes, rest) + span(
        nodes,
        next.drop_last().last() as int,
    ));
}

} // verus!
