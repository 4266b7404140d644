//! The model of a tile tree: a sequence of nodes that refer to each other by
//! index, with the root at index 0.

use vstd::prelude::*;
use crate::geometry::{lemma_split_ordered, Rect, SplitAxis};
use crate::tile::Tile;
use crate::tree::TileNode;

verus! {

/// The handle `child`, if it names a node that was added after node `i`.
pub open spec fn child_at(nodes: Seq<TileNode>, i: int, child: Option<usize>) -> Option<int> {
    match child {
        Some(c) => if i < c < nodes.len() {
            Some(c as int)
        } else {
            None
        },
        None => None,
    }
}

/// The tiles below node `i`, in order: those of the left subtree, then the
/// node's own tile, then those of the right subtree.
pub open spec fn in_order(nodes: Seq<TileNode>, i: int) -> Seq<Tile>
    decreases nodes.len() - i,
{
    if 0 <= i < nodes.len() {
        let node = nodes[i];
        let left = match child_at(nodes, i, node.left) {
            Some(l) => in_order(nodes, l),
            None => Seq::empty(),
        };
        let own = match node.tile {
            Some(tile) => seq![tile],
            None => Seq::empty(),
        };
        let right = match child_at(nodes, i, node.right) {
            Some(r) => in_order(nodes, r),
            None => Seq::empty(),
        };
        left + own + right
    } else {
        Seq::empty()
    }
}

/// The leaf that a walk from node `i` ends at, if it goes to the right child
/// wherever there is one, and else to the left child.
pub open spec fn target_leaf(nodes: Seq<TileNode>, i: int) -> int
    decreases nodes.len() - i,
{
    if 0 <= i < nodes.len() {
        match child_at(nodes, i, nodes[i].right) {
            Some(r) => target_leaf(nodes, r),
            None => match child_at(nodes, i, nodes[i].left) {
                Some(l) => target_leaf(nodes, l),
                None => i,
            },
        }
    } else {
        i
    }
}

/// The part of the screen that belongs to node `i`: the whole screen for the
/// root, and for any other node one half of its parent's region.
pub open spec fn region(nodes: Seq<TileNode>, screen: Rect, i: int) -> Rect
    decreases i,
{
    if 0 < i < nodes.len() && nodes[i].parent is Some && nodes[i].parent.unwrap() < i {
        let p = nodes[i].parent.unwrap() as int;
        let halves = region(nodes, screen, p).spec_split(
            SplitAxis::spec_for_depth(nodes[p].depth + 1),
        );
        if nodes[p].left == Some(i as usize) {
            halves.0
        } else {
            halves.1
        }
    } else {
        screen
    }
}

/// Whether node `c` is one of the two children that node `p` names.
pub open spec fn is_child(nodes: Seq<TileNode>, p: int, c: int) -> bool {
    nodes[p].left == Some(c as usize) || nodes[p].right == Some(c as usize)
}

/// What holds of node `i` of a tile tree over `screen`.
pub open spec fn node_wf(nodes: Seq<TileNode>, screen: Rect, i: int) -> bool {
    let node = nodes[i];
    &&& node.depth <= i
    &&& i == 0 ==> node.parent is None && node.depth == 0
    &&& i > 0 ==> {
        &&& node.parent matches Some(p)
        &&& p < i
        &&& is_child(nodes, p as int, i)
        &&& node.depth == nodes[p as int].depth + 1
    }
    &&& node.tile is Some <==> node.spec_is_leaf()
    &&& node.left is Some <==> node.right is Some
    &&& node.left matches Some(l) ==> {
        &&& i < l < nodes.len()
        &&& nodes[l as int].parent == Some(i as usize)
        &&& nodes[l as int].spec_is_leaf()
    }
    &&& node.right matches Some(r) ==> {
        &&& i < r < nodes.len()
        &&& nodes[r as int].parent == Some(i as usize)
        &&& node.left != Some(r)
    }
    &&& node.tile matches Some(tile) ==> tile.boundary == region(nodes, screen, i)
}

/// The nodes form a tile tree over `screen`: node 0, if there is one, is the
/// root, every other node is a child of exactly one earlier node, a node has
/// a tile exactly when it has no children, and the tile of a leaf is the
/// region that the cuts above it leave to it.  Only the rightmost leaf ever
/// grows, so every left child is a leaf.
pub open spec fn arena_wf(nodes: Seq<TileNode>, screen: Rect) -> bool {
    &&& screen.wf()
    &&& nodes.len() <= usize::MAX
    &&& forall|i: int| 0 <= i < nodes.len() ==> #[trigger] node_wf(nodes, screen, i)
}

/// The region of every node of a tile tree is a rectangle in its own right.
pub proof fn lemma_region_wf(nodes: Seq<TileNode>, screen: Rect, i: int)
    requires
        screen.wf(),
    ensures
        region(nodes, screen, i).wf(),
    decreases i,
{
    if 0 < i < nodes.len() && nodes[i].parent is Some && nodes[i].parent.unwrap() < i {
        let p = nodes[i].parent.unwrap() as int;
        lemma_region_wf(nodes, screen, p);
        lemma_split_ordered(
            region(nodes, screen, p),
            SplitAxis::spec_for_depth(nodes[p].depth + 1),
        );
    }
}

/// The regions of the two children of an inner node are the two halves of the
/// node's own region, cut along the axis that belongs to the children's depth.
pub proof fn lemma_children_regions(nodes: Seq<TileNode>, screen: Rect, i: int)
    requires
        arena_wf(nodes, screen),
        0 <= i < nodes.len(),
        !nodes[i].spec_is_leaf(),
    ensures
        ({
            let node = nodes[i];
            &&& node.left matches Some(l)
            &&& node.right matches Some(r)
            &&& i < l < nodes.len()
            &&& i < r < nodes.len()
            &&& l != r
            &&& nodes[l as int].depth == node.depth + 1
            &&& nodes[r as int].depth == node.depth + 1
            &&& (region(nodes, screen, l as int), region(nodes, screen, r as int)) == region(
                nodes,
                screen,
                i,
            ).spec_split(SplitAxis::spec_for_depth(node.depth + 1))
        }),
{
    assert(node_wf(nodes, screen, i));
    assert(node_wf(nodes, screen, nodes[i].left.unwrap() as int));
    assert(node_wf(nodes, screen, nodes[i].right.unwrap() as int));
}

/// The tiles below a node lie inside the node's region, and each comes before
/// those that follow it.
pub proof fn lemma_in_order_ordered(nodes: Seq<TileNode>, screen: Rect, i: int)
    requires
        arena_wf(nodes, screen),
        0 <= i < nodes.len(),
    ensures
        forall|k: int|
            0 <= k < in_order(nodes, i).len() ==> {
                &&& (#[trigger] in_order(nodes, i)[k]).boundary.wf()
                &&& in_order(nodes, i)[k].boundary.spec_within(region(nodes, screen, i))
            },
        forall|a: int, b: int|
            0 <= a < b < in_order(nodes, i).len() ==> (#[trigger] in_order(
                nodes,
                i,
            )[a]).boundary.spec_precedes((#[trigger] in_order(nodes, i)[b]).boundary),
    decreases nodes.len() - i,
{
    assert(node_wf(nodes, screen, i));
    lemma_region_wf(nodes, screen, i);
    if !nodes[i].spec_is_leaf() {
        // The first tile is that of the left child, which has the first half
        // of the region; all others lie in the second half.
        let l = nodes[i].left.unwrap() as int;
        let r = nodes[i].right.unwrap() as int;
        lemma_children_regions(nodes, screen, i);
        lemma_split_ordered(
            region(nodes, screen, i),
            SplitAxis::spec_for_depth(nodes[i].depth + 1),
        );
        assert(node_wf(nodes, screen, l));
        lemma_in_order_ordered(nodes, screen, r);
        assert(in_order(nodes, l) =~= seq![nodes[l].tile.unwrap()]);
        assert forall|k: int| 0 <= k < in_order(nodes, i).len() implies {
            &&& (#[trigger] in_order(nodes, i)[k]).boundary.wf()
            &&& in_order(nodes, i)[k].boundary.spec_within(region(nodes, screen, i))
        } by {
            if k > 0 {
                assert(in_order(nodes, i)[k] == in_order(nodes, r)[k - 1]);
            }
        }
    }
}

/// Below a node of a tile tree the walk to the right ends at a leaf, which is
/// the node itself or a right child, and the subtree holds one tile for each
/// level from the node down to that leaf, the leaf's own tile last.
pub proof fn lemma_target_leaf(nodes: Seq<TileNode>, screen: Rect, i: int)
    requires
        arena_wf(nodes, screen),
        0 <= i < nodes.len(),
    ensures
        ({
            let t = target_leaf(nodes, i);
            &&& i <= t < nodes.len()
            &&& nodes[t].spec_is_leaf()
            &&& t != i ==> {
                &&& nodes[t].parent matches Some(p)
                &&& p < t
                &&& nodes[p as int].right == Some(t as usize)
            }
            &&& nodes[i].depth <= nodes[t].depth
            &&& in_order(nodes, i).len() == nodes[t].depth - nodes[i].depth + 1
            &&& nodes[t].tile matches Some(tile) && in_order(nodes, i).last() == tile
        }),
    decreases nodes.len() - i,
{
    assert(node_wf(nodes, screen, i));
    if nodes[i].right is Some {
        let l = nodes[i].left.unwrap() as int;
        let r = nodes[i].right.unwrap() as int;
        assert(node_wf(nodes, screen, l));
        assert(node_wf(nodes, screen, r));
        lemma_target_leaf(nodes, screen, r);
        assert(in_order(nodes, i) =~= in_order(nodes, l) + in_order(nodes, r));
    }
}

} // verus!
