//! The flattened hierarchy: the nodes of a tree in depth-first order, each
//! interior node directly followed by its first child.

use vstd::prelude::*;
use crate::geometry::Bounds3i;
use crate::bvh::common::{
    boxes,
    lemma_covers_counts,
    BVHBuildNode,
    BVHPrimitiveInfo,
    LinearBVHNode,
};

verus! {

/// The number of nodes of the subtree whose root is node `i`: one for a
/// leaf; for an interior node, the nodes up to its second child and the
/// subtree of that child.
pub open spec fn span(nodes: Seq<LinearBVHNode>, i: int) -> int
    decreases nodes.len() - i,
{
    if 0 <= i < nodes.len() && nodes[i].n_primitives == 0 && i + 1 < nodes[i].offset
        < nodes.len() {
        (nodes[i].offset - i) + span(nodes, nodes[i].offset as int)
    } else {
        1
    }
}

/// The number of primitives in the leaves of the subtree whose root is node
/// `i`.
pub open spec fn prims_under(nodes: Seq<LinearBVHNode>, i: int) -> int
    decreases nodes.len() - i,
{
    if 0 <= i < nodes.len() {
        if nodes[i].n_primitives > 0 {
            nodes[i].n_primitives as int
        } else if i + 1 < nodes[i].offset < nodes.len() {
            prims_under(nodes, i + 1) + prims_under(nodes, nodes[i].offset as int)
        } else {
            0
        }
    } else {
        0
    }
}

/// The subtree whose root is node `i` is laid out in depth-first order and
/// covers the records of `infos` from position `start` on, in order and
/// without gaps.
///
/// A leaf starts at `start` and its box is the union of the boxes of its
/// records. An interior node is followed by its first child, whose subtree
/// ends where the second child stands; the first child covers the records
/// from `start`, the second those that follow; and the node's box is the
/// union of the boxes of its two children.
pub open spec fn laid_out(
    nodes: Seq<LinearBVHNode>,
    infos: Seq<BVHPrimitiveInfo>,
    i: int,
    start: int,
) -> bool
    decreases nodes.len() - i,
{
    &&& 0 <= i < nodes.len()
    &&& if nodes[i].n_primitives > 0 {
        &&& nodes[i].offset == start
        &&& 0 <= start
        &&& start + nodes[i].n_primitives <= infos.len()
        &&& nodes[i].bounds == Bounds3i::union_of(
            boxes(infos, start, start + nodes[i].n_primitives),
        )
    } else {
        let second = nodes[i].offset as int;
        &&& i + 1 < second < nodes.len()
        &&& second == i + 1 + span(nodes, i + 1)
        &&& laid_out(nodes, infos, i + 1, start)
        &&& laid_out(nodes, infos, second, start + prims_under(nodes, i + 1))
        &&& nodes[i].bounds == nodes[i + 1].bounds.union_spec(nodes[second].bounds)
    }
}

/// Every interior node of the subtree whose root is node `i` has half of its
/// primitives, rounded down, under its first child.
pub open spec fn halved_from(nodes: Seq<LinearBVHNode>, i: int) -> bool
    decreases nodes.len() - i,
{
    if 0 <= i < nodes.len() && nodes[i].n_primitives == 0 && i + 1 < nodes[i].offset
        < nodes.len() {
        &&& prims_under(nodes, i + 1) == prims_under(nodes, i) / 2
        &&& halved_from(nodes, i + 1)
        &&& halved_from(nodes, nodes[i].offset as int)
    } else {
        true
    }
}

/// A subtree that is laid out lies within the array, holds at least one
/// primitive, and its records lie within `infos`.
pub proof fn lemma_laid_out_sizes(
    nodes: Seq<LinearBVHNode>,
    infos: Seq<BVHPrimitiveInfo>,
    i: int,
    start: int,
)
    requires
        laid_out(nodes, infos, i, start),
    ensures
        1 <= span(nodes, i),
        i + span(nodes, i) <= nodes.len(),
        1 <= prims_under(nodes, i),
        0 <= start,
        start + prims_under(nodes, i) <= infos.len(),
    decreases nodes.len() - i,
{
    if nodes[i].n_primitives == 0 {
        let second = nodes[i].offset as int;
        lemma_laid_out_sizes(nodes, infos, i + 1, start);
        lemma_laid_out_sizes(nodes, infos, second, start + prims_under(nodes, i + 1));
    }
}

/// What holds of a subtree depends only on the nodes of the subtree.
pub proof fn lemma_laid_out_frame(
    a: Seq<LinearBVHNode>,
    b: Seq<LinearBVHNode>,
    infos: Seq<BVHPrimitiveInfo>,
    i: int,
    start: int,
)
    requires
        laid_out(a, infos, i, start),
        a.len() <= b.len(),
        forall|k: int| i <= k < i + span(a, i) ==> #[trigger] b[k] == a[k],
    ensures
        laid_out(b, infos, i, start),
        span(b, i) == span(a, i),
        prims_under(b, i) == prims_under(a, i),
        halved_from(b, i) == halved_from(a, i),
    decreases a.len() - i,
{
    lemma_laid_out_sizes(a, infos, i, start);
    assert(b[i] == a[i]);
    if a[i].n_primitives == 0 {
        let second = a[i].offset as int;
        lemma_laid_out_sizes(a, infos, i + 1, start);
        lemma_laid_out_sizes(a, infos, second, start + prims_under(a, i + 1));
        lemma_laid_out_frame(a, b, infos, i + 1, start);
        lemma_laid_out_frame(a, b, infos, second, start + prims_under(a, i + 1));
        assert(b[i + 1] == a[i + 1]);
        assert(b[second] == a[second]);
    }
}

/// The nodes from index `i` on are the nodes of the tree in depth-first
/// order: each holds the box of its tree node; a leaf holds the position and
/// the number of its primitives; an interior node holds its axis and the
/// index of its second child, and is followed by its first child.
pub open spec fn mirrors(node: &BVHBuildNode, nodes: Seq<LinearBVHNode>, i: int) -> bool
    decreases node,
{
    &&& 0 <= i < nodes.len()
    &&& nodes[i].bounds == node.bounds
    &&& match node.children {
        None => {
            &&& nodes[i].n_primitives == node.n_primitives
            &&& nodes[i].offset == node.first_prim_offset
            &&& nodes[i].axis == 0
        },
        Some((c0, c1)) => {
            &&& nodes[i].n_primitives == 0
            &&& nodes[i].offset == i + 1 + c0.node_count()
            &&& nodes[i].axis == node.split_axis.index()
            &&& mirrors(&c0, nodes, i + 1)
            &&& mirrors(&c1, nodes, i + 1 + c0.node_count())
        },
    }
}

/// Whether nodes are those of a tree depends only on the nodes of the tree.
pub proof fn lemma_mirrors_frame(
    node: &BVHBuildNode,
    a: Seq<LinearBVHNode>,
    b: Seq<LinearBVHNode>,
    i: int,
)
    requires
        mirrors(node, a, i),
        a.len() <= b.len(),
        forall|k: int| i <= k < i + node.node_count() ==> #[trigger] b[k] == a[k],
    ensures
        mirrors(node, b, i),
    decreases node,
{
    assert(b[i] == a[i]);
    match &node.children {
        None => {},
        Some((c0, c1)) => {
            lemma_mirrors_frame(c0, a, b, i + 1);
            lemma_mirrors_frame(c1, a, b, i + 1 + c0.node_count());
        },
    }
}

/// Every leaf of the tree fits a flattened node: its position fits 32 bits
/// and its count 16.
pub open spec fn fits(node: &BVHBuildNode) -> bool
    decreases node,
{
    match node.children {
        None => node.first_prim_offset <= u32::MAX && 1 <= node.n_primitives <= u16::MAX,
        Some((c0, c1)) => node.n_primitives == 0 && fits(&c0) && fits(&c1),
    }
}

/// A tree that covers records of a sequence whose positions fit 32 bits fits
/// flattened nodes.
pub proof fn lemma_covers_fits(node: &BVHBuildNode, infos: Seq<BVHPrimitiveInfo>, start: int)
    requires
        node.covers(infos, start),
        infos.len() <= u32::MAX,
    ensures
        fits(node),
    decreases node,
{
    match &node.children {
        None => {},
        Some((c0, c1)) => {
            lemma_covers_counts(c0, infos, start);
            lemma_covers_fits(c0, infos, start);
            lemma_covers_fits(c1, infos, start + c0.count());
        },
    }
}

/// Appends the nodes of the tree to `nodes` in depth-first order and returns
/// the index of the tree's root.
///
/// Each interior node is followed by its first child; the index of its second
/// child is written into it once that child has been placed.
pub fn flatten_bvh_tree(
    node: &BVHBuildNode,
    nodes: &mut Vec<LinearBVHNode>,
    Ghost(infos): Ghost<Seq<BVHPrimitiveInfo>>,
    Ghost(start): Ghost<int>,
) -> (index: usize)
    requires
        node.covers(infos, start),
        infos.len() <= u32::MAX,
        old(nodes).len() + node.node_count() <= u32::MAX,
    ensures
        index == old(nodes).len(),
        final(nodes).len() == old(nodes).len() + node.node_count(),
        forall|k: int| 0 <= k < old(nodes).len() ==> #[trigger] final(nodes)@[k] == old(nodes)@[k],
        laid_out(final(nodes)@, infos, index as int, start),
        span(final(nodes)@, index as int) == node.node_count(),
        prims_under(final(nodes)@, index as int) == node.count(),
        final(nodes)@[index as int].bounds == node.bounds,
        mirrors(node, final(nodes)@, index as int),
        node.halved() ==> halved_from(final(nodes)@, index as int),
    decreases node,
{
    let index = nodes.len();
    proof {
        lemma_covers_fits(node, infos, start);
    }
    match &node.children {
        None => {
            nodes.push(
                LinearBVHNode::new_leaf_node(
                    node.bounds,
                    node.first_prim_offset as u32,
                    node.n_primitives as u16,
                ),
            );
        },
        Some((c0, c1)) => {
            let axis = node.split_axis.to_u8();
            nodes.push(LinearBVHNode::new_interior_node(node.bounds, 0, axis));
            proof {
                lemma_covers_counts(c0, infos, start);
                lemma_covers_counts(c1, infos, start + c0.count());
            }
            let first = flatten_bvh_tree(c0, nodes, Ghost(infos), Ghost(start));
            let ghost after_first = nodes@;
            let second = flatten_bvh_tree(c1, nodes, Ghost(infos), Ghost(start + c0.count()));
            let ghost after_second = nodes@;
            nodes[index] = LinearBVHNode::new_interior_node(node.bounds, second as u32, axis);
            proof {
                lemma_laid_out_sizes(after_first, infos, first as int, start);
                lemma_laid_out_sizes(after_second, infos, second as int, start + c0.count());
                lemma_laid_out_frame(after_first, nodes@, infos, first as int, start);
                lemma_laid_out_frame(
                    after_second,
                    nodes@,
                    infos,
                    second as int,
                    start + c0.count(),
                );
                assert(nodes@[first as int] == after_first[first as int]);
                assert(nodes@[second as int] == after_second[second as int]);
                lemma_mirrors_frame(c0, after_first, nodes@, first as int);
                lemma_mirrors_frame(c1, after_second, nodes@, second as int);
            }
        },
    }
    index
}

} // verus!
