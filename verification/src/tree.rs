//! The tile tree: a binary tree whose leaves are the tiles of the screen.
//!
//! A tree starts without a tile and grows by one tile for every item that is
//! inserted; nothing is ever removed.  Its nodes live in one arena and name
//! each other by their position in it.  A node never moves, so a handle stays
//! valid for as long as the tree lives, and following handles needs no
//! recursion: neither inserting nor visiting can exhaust the call stack,
//! however deep the tree has grown.
//!
//! The model that the contracts speak of is in [`arena`], what an insertion
//! does to it in [`growth`].

use vstd::prelude::*;
use crate::geometry::{lemma_split_partitions, Point, Rect, SplitAxis};
use crate::tile::Tile;
use crate::tree::arena::{
    arena_wf, in_order, lemma_children_regions, lemma_in_order_ordered, lemma_region_wf,
    lemma_target_leaf, node_wf, region, target_leaf,
};
use crate::tree::growth::{grown, grown_layout, lemma_grown};
use crate::tree::traversal::{lemma_pending_len, pending};

pub mod arena;
pub mod growth;
pub mod traversal;

verus! {

/// A node of a tile tree: a leaf, which holds a tile, or an inner node, which
/// holds the handles of its two children.
#[derive(Debug, Clone, Copy, PartialEq, Eq)]
pub struct TileNode {
    /// The tile of a leaf; an inner node has none.
    pub tile: Option<Tile>,
    /// The number of cuts between the screen and this node.
    pub depth: usize,
    /// The handle of the child that got the first half of this node's region.
    pub left: Option<usize>,
    /// The handle of the child that got the second half.
    pub right: Option<usize>,
    /// The handle of the node that this one is a child of.  The root has
    /// none.
    pub parent: Option<usize>,
}

impl TileNode {
    pub open spec fn spec_is_leaf(&self) -> bool {
        self.right is None && self.left is None
    }

    /// A node with exactly these fields.
    pub fn new(
        tile: Option<Tile>,
        depth: usize,
        left: Option<usize>,
        right: Option<usize>,
        parent: Option<usize>,
    ) -> (node: TileNode)
        ensures
            node == (TileNode { tile, depth, left, right, parent }),
    {
        TileNode { tile, depth, left, right, parent }
    }

    /// A node that holds `tile` and has no children.
    pub fn new_leaf(tile: Tile, depth: usize, parent: Option<usize>) -> (node: TileNode)
        ensures
            node == (TileNode { tile: Some(tile), depth, left: None, right: None, parent }),
            node.spec_is_leaf(),
    {
        TileNode::new(Some(tile), depth, None, None, parent)
    }

    /// A node is a leaf when it has no child.  Nothing else is looked at.
    pub fn is_leaf(&self) -> (leaf: bool)
        ensures
            leaf == self.spec_is_leaf(),
    {
        self.right.is_none() && self.left.is_none()
    }
}

/// A partition of a screen into tiles, one for each item that was inserted.
///
/// `tree@` is the sequence of its tiles in the order in which
/// [`TileTree::visit`] yields them.
pub struct TileTree {
    screen_size: Rect,
    nodes: Vec<TileNode>,
}

impl View for TileTree {
    type V = Seq<Tile>;

    /// The tiles of the tree in traversal order.
    open spec fn view(&self) -> Seq<Tile> {
        in_order(self.nodes(), 0)
    }
}

impl TileTree {
    /// The nodes of the tree, each at the position that its handle names.
    pub closed spec fn nodes(&self) -> Seq<TileNode> {
        self.nodes@
    }

    /// The rectangle that the tree divides.
    pub closed spec fn screen(&self) -> Rect {
        self.screen_size
    }

    /// What holds of every tree at all times: its nodes form a tile tree over
    /// its screen.
    #[verifier::type_invariant]
    pub open spec fn wf(&self) -> bool {
        arena_wf(self.nodes(), self.screen())
    }

    /// The part of the screen that belongs to the node that `handle` names.
    pub open spec fn region_of(&self, handle: int) -> Rect {
        region(self.nodes(), self.screen(), handle)
    }

    /// The leaf that the next item will be placed at.
    pub open spec fn target(&self) -> int {
        target_leaf(self.nodes(), 0)
    }

    /// A tree over `screen_size` that holds no tile yet.
    pub fn new(screen_size: Rect) -> (tree: TileTree)
        requires
            screen_size.wf(),
        ensures
            tree.wf(),
            tree.screen() == screen_size,
            tree.nodes() == Seq::<TileNode>::empty(),
            tree@ == Seq::<Tile>::empty(),
    {
        TileTree { screen_size, nodes: Vec::new() }
    }

    /// The root of the tree, if any item has been placed.
    pub fn root(&self) -> (root: Option<&TileNode>)
        ensures
            self.nodes().len() == 0 ==> root is None,
            self.nodes().len() > 0 ==> root == Some(&self.nodes()[0]),
    {
        self.node(0)
    }

    /// The node that `handle` names, if there is one.
    pub fn node(&self, handle: usize) -> (node: Option<&TileNode>)
        ensures
            handle >= self.nodes().len() ==> node is None,
            handle < self.nodes().len() ==> node == Some(&self.nodes()[handle as int]),
    {
        if handle < self.nodes.len() {
            Some(&self.nodes[handle])
        } else {
            None
        }
    }

    /// Walks from the root to the leaf that the next item will be placed at:
    /// to the right child wherever there is one, else to the left child, until
    /// there is no child.
    fn find_target(&self) -> (target: usize)
        requires
            self.nodes().len() > 0,
        ensures
            target == self.target(),
            target < self.nodes().len(),
            self.nodes()[target as int].spec_is_leaf(),
            self.nodes()[target as int].tile is Some,
    {
        proof {
            use_type_invariant(self);
            lemma_target_leaf(self.nodes@, self.screen_size, 0);
        }
        let mut target: usize = 0;
        loop
            invariant
                arena_wf(self.nodes@, self.screen_size),
                target < self.nodes.len(),
                target_leaf(self.nodes@, target as int) == target_leaf(self.nodes@, 0),
            ensures
                target as int == target_leaf(self.nodes@, 0),
            decreases self.nodes.len() - target,
        {
            proof {
                assert(node_wf(self.nodes@, self.screen_size, target as int));
            }
            let node = &self.nodes[target];
            if let Some(right) = node.right {
                target = right;
            } else if let Some(left) = node.left {
                target = left;
            } else {
                break ;
            }
        }
        proof {
            assert(node_wf(self.nodes@, self.screen_size, target as int));
        }
        target
    }

    /// Places one more item.
    ///
    /// The first item gets a root leaf that spans the screen.  Every later
    /// one is placed at the leaf that a walk from the root ends at, if it goes
    /// to the right child wherever there is one: that leaf becomes an inner
    /// node, its own item moves into a new left child and the new item into a
    /// new right child, and the two share its rectangle.  Children at an odd
    /// depth lie side by side, children at an even depth are stacked.
    ///
    /// There is no limit to the number of items.  A rectangle that is one unit
    /// wide or tall is still cut, into halves that are empty.
    pub fn insert(&mut self, app_process_id: i32)
        ensures
            final(self).wf(),
            final(self).screen() == old(self).screen(),
            final(self).nodes() == grown(old(self).nodes(), old(self).screen(), app_process_id),
            final(self)@ == grown_layout(old(self)@, old(self).screen(), app_process_id),
            final(self)@.len() == old(self)@.len() + 1,
    {
        proof {
            use_type_invariant(&*self);
        }
        let ghost before = self.nodes@;
        if self.nodes.len() == 0 {
            let mut nodes: Vec<TileNode> = Vec::new();
            nodes.push(TileNode::new_leaf(Tile::new(app_process_id, self.screen_size), 0, None));
            proof {
                assert(nodes@ =~= grown(before, self.screen_size, app_process_id));
                lemma_grown(before, self.screen_size, app_process_id);
            }
            self.nodes = nodes;
        } else {
            let target = self.find_target();
            let node = self.nodes[target];
            let tile = node.tile.unwrap();
            proof {
                assert(node_wf(before, self.screen_size, target as int));
                lemma_region_wf(before, self.screen_size, target as int);
            }
            let depth: usize = node.depth + 1;
            let halves = tile.boundary.split(SplitAxis::for_depth(depth));
            // The nodes leave the tree while they change: it is never seen
            // half grown.
            let mut nodes: Vec<TileNode> = Vec::new();
            std::mem::swap(&mut nodes, &mut self.nodes);
            let left: usize = nodes.len();
            nodes.push(
                TileNode::new_leaf(Tile::new(tile.app_process_id, halves.0), depth, Some(target)),
            );
            let right: usize = nodes.len();
            nodes.push(TileNode::new_leaf(Tile::new(app_process_id, halves.1), depth, Some(target)));
            nodes.set(target, TileNode::new(None, node.depth, Some(left), Some(right), node.parent));
            proof {
                assert(nodes@ =~= grown(before, self.screen_size, app_process_id));
                assert(nodes@.len() == nodes.len());
                lemma_grown(before, self.screen_size, app_process_id);
            }
            self.nodes = nodes;
        }
    }

    /// The tiles of the tree, from left to right and from top to bottom: for
    /// every node the tiles of its left subtree, then its own tile if it is a
    /// leaf, then the tiles of its right subtree.
    pub fn visit(&self) -> (tiles: Vec<Tile>)
        ensures
            tiles@ == self@,
            forall|k: int| 0 <= k < tiles.len() ==> (#[trigger] tiles[k]).boundary.wf(),
    {
        proof {
            use_type_invariant(self);
        }
        let mut tiles: Vec<Tile> = Vec::new();
        if self.nodes.len() == 0 {
            return tiles;
        }
        let mut stack: Vec<usize> = Vec::new();
        stack.push(0);
        proof {
            assert(pending(self.nodes@, stack@.drop_last()) =~= Seq::<Tile>::empty());
            lemma_pending_len(self.nodes@, self.screen_size, stack@);
        }
        while stack.len() > 0
            invariant
                arena_wf(self.nodes@, self.screen_size),
                forall|k: int| 0 <= k < stack.len() ==> stack[k] < self.nodes.len(),
                tiles@ + pending(self.nodes@, stack@) == in_order(self.nodes@, 0),
                pending(self.nodes@, stack@).len() >= stack.len(),
                forall|k: int| 0 <= k < tiles.len() ==> (#[trigger] tiles[k]).boundary.wf(),
            decreases 2 * pending(self.nodes@, stack@).len() - stack.len(),
        {
            let i = stack.pop().unwrap();
            let node = &self.nodes[i];
            proof {
                assert(node_wf(self.nodes@, self.screen_size, i as int));
            }
            match (node.left, node.right) {
                (Some(left), Some(right)) => {
                    let ghost rest = stack@;
                    stack.push(right);
                    stack.push(left);
                    proof {
                        let upper = rest.push(right);
                        assert(stack@.drop_last() == upper);
                        assert(upper.drop_last() == rest);
                        assert(pending(self.nodes@, stack@) == in_order(self.nodes@, left as int)
                            + pending(self.nodes@, upper));
                        lemma_pending_len(self.nodes@, self.screen_size, stack@);
                    }
                },
                _ => {
                    let tile = node.tile.unwrap();
                    tiles.push(tile);
                    proof {
                        lemma_region_wf(self.nodes@, self.screen_size, i as int);
                        lemma_pending_len(self.nodes@, self.screen_size, stack@);
                    }
                },
            }
        }
        tiles
    }

    /// A node is a leaf exactly when it holds a tile, and the tile of a leaf
    /// is the leaf's region.  An inner node has two children one level further
    /// down, and their regions are the two halves of its own region.
    pub proof fn lemma_node_invariant(&self, handle: int)
        requires
            self.wf(),
            0 <= handle < self.nodes().len(),
        ensures
            ({
                let node = self.nodes()[handle];
                &&& node.spec_is_leaf() <==> node.tile is Some
                &&& node.left is Some <==> node.right is Some
                &&& node.tile matches Some(tile) ==> tile.boundary == self.region_of(handle)
                &&& !node.spec_is_leaf() ==> {
                    &&& node.left matches Some(l)
                    &&& node.right matches Some(r)
                    &&& handle < l < self.nodes().len()
                    &&& handle < r < self.nodes().len()
                    &&& l != r
                    &&& self.nodes()[l as int].parent == Some(handle as usize)
                    &&& self.nodes()[r as int].parent == Some(handle as usize)
                    &&& self.nodes()[l as int].depth == node.depth + 1
                    &&& self.nodes()[r as int].depth == node.depth + 1
                    &&& (self.region_of(l as int), self.region_of(r as int)) == self.region_of(
                        handle,
                    ).spec_split(SplitAxis::spec_for_depth(node.depth + 1))
                }
            }),
    {
        assert(node_wf(self.nodes(), self.screen(), handle));
        if !self.nodes()[handle].spec_is_leaf() {
            lemma_children_regions(self.nodes(), self.screen(), handle);
        }
    }

    /// The regions of the two children of an inner node share no point, and
    /// together they hold the points of the node's own region: all of them if
    /// the extent that the cut halves is even, all but those of the last row or
    /// column if it is odd.
    pub proof fn lemma_children_partition(&self, handle: int, point: Point)
        requires
            self.wf(),
            0 <= handle < self.nodes().len(),
            !self.nodes()[handle].spec_is_leaf(),
        ensures
            ({
                let node = self.nodes()[handle];
                let axis = SplitAxis::spec_for_depth(node.depth + 1);
                let whole = self.region_of(handle);
                let first = self.region_of(node.left.unwrap() as int);
                let second = self.region_of(node.right.unwrap() as int);
                &&& !(first.spec_contains(point) && second.spec_contains(point))
                &&& (first.spec_contains(point) || second.spec_contains(point))
                    <==> whole.spec_split_footprint(axis).spec_contains(point)
                &&& whole.spec_split_footprint(axis).spec_contains(point) ==> whole.spec_contains(
                    point,
                )
                &&& whole.spec_split_remainder(axis) == 0 ==> whole.spec_split_footprint(axis)
                    == whole
            }),
    {
        lemma_children_regions(self.nodes(), self.screen(), handle);
        lemma_region_wf(self.nodes(), self.screen(), handle);
        lemma_split_partitions(
            self.region_of(handle),
            SplitAxis::spec_for_depth(self.nodes()[handle].depth + 1),
            point,
        );
    }

    /// The tiles of a tree are rectangles inside the screen, and they come in
    /// reading order: each ends where those after it begin or earlier, from
    /// left to right or from top to bottom.  So no two tiles overlap.
    pub proof fn lemma_tiles_ordered(&self)
        requires
            self.wf(),
        ensures
            forall|k: int|
                0 <= k < self@.len() ==> {
                    &&& (#[trigger] self@[k]).boundary.wf()
                    &&& self@[k].boundary.spec_within(self.screen())
                },
            forall|a: int, b: int|
                0 <= a < b < self@.len() ==> (#[trigger] self@[a]).boundary.spec_precedes(
                    (#[trigger] self@[b]).boundary,
                ),
    {
        if self.nodes().len() > 0 {
            lemma_in_order_ordered(self.nodes(), self.screen(), 0);
        }
    }

    /// The next item is placed at a leaf, which holds the last tile of the
    /// tree and lies one level deeper for every tile before it.
    pub proof fn lemma_target(&self)
        requires
            self.wf(),
            self.nodes().len() > 0,
        ensures
            0 <= self.target() < self.nodes().len(),
            self.nodes()[self.target()].spec_is_leaf(),
            self.nodes()[self.target()].tile == Some(self@.last()),
            self.nodes()[self.target()].depth + 1 == self@.len(),
    {
        lemma_target_leaf(self.nodes(), self.screen(), 0);
        assert(node_wf(self.nodes(), self.screen(), 0));
    }

    /// What a traversal yields depends on the tree alone: two traversals with
    /// no insertion between them yield the same tiles in the same order.
    pub proof fn lemma_visit_repeatable(&self, first: Seq<Tile>, second: Seq<Tile>)
        requires
            first == self@,
            second == self@,
        ensures
            first == second,
            first.len() == second.len(),
            forall|k: int| 0 <= k < first.len() ==> first[k] == second[k],
    {
    }
}

} // verus!
