//! How the model of a tile tree changes when an item is placed.

use vstd::prelude::*;
use crate::geometry::{Rect, SplitAxis};
use crate::tile::Tile;
use crate::tree::arena::{
    arena_wf, child_at, in_order, lemma_target_leaf, node_wf, region, target_leaf,
};
use crate::tree::TileNode;

verus! {

/// The nodes after one more item has been placed.
///
/// In an empty tree the item gets a root leaf that spans the screen.
/// Otherwise the target leaf becomes an inner node and two leaves are added
/// at the end: its left child, which takes over the leaf's item, and its right
/// child, which takes the new item.  The children share the leaf's rectangle
/// half and half.  No other node changes.
pub open spec fn grown(nodes: Seq<TileNode>, screen: Rect, app_process_id: i32) -> Seq<TileNode> {
    if nodes.len() == 0 {
        seq![
            TileNode {
                tile: Some(Tile { app_process_id, boundary: screen }),
                depth: 0,
                left: None,
                right: None,
                parent: None,
            },
        ]
    } else {
        let target = target_leaf(nodes, 0);
        let node = nodes[target];
        let tile = node.tile.unwrap();
        let depth = node.depth + 1;
        let halves = tile.boundary.spec_split(SplitAxis::spec_for_depth(depth));
        let left = nodes.len();
        let right = nodes.len() + 1;
        nodes.update(
            target,
            TileNode {
                tile: None,
                depth: node.depth,
                left: Some(left as usize),
                right: Some(right as usize),
                parent: node.parent,
            },
        ).push(
            TileNode {
                tile: Some(Tile { app_process_id: tile.app_process_id, boundary: halves.0 }),
                depth: depth as usize,
                left: None,
                right: None,
                parent: Some(target as usize),
            },
        ).push(
            TileNode {
                tile: Some(Tile { app_process_id, boundary: halves.1 }),
                depth: depth as usize,
                left: None,
                right: None,
                parent: Some(target as usize),
            },
        )
    }
}

/// The tiles after one more item has been placed.
///
/// The first item gets the whole screen.  Every later one shares the
/// rectangle of the last tile with that tile's item: the cut is vertical if
/// the number of tiles so far is odd and horizontal if it is even, the old
/// item keeps the first half and the new item gets the second.
pub open spec fn grown_layout(tiles: Seq<Tile>, screen: Rect, app_process_id: i32) -> Seq<Tile> {
    if tiles.len() == 0 {
        seq![Tile { app_process_id, boundary: screen }]
    } else {
        let last = tiles.last();
        let halves = last.boundary.spec_split(SplitAxis::spec_for_depth(tiles.len() as int));
        tiles.drop_last().push(
            Tile { app_process_id: last.app_process_id, boundary: halves.0 },
        ).push(Tile { app_process_id, boundary: halves.1 })
    }
}

/// Placing an item adds one tile.  It puts the new item last and leaves every
/// item before it in its place, so the tiles come in the order in which their
/// items were placed; and every tile but the one that is cut keeps its
/// rectangle.
pub proof fn lemma_grown_layout_order(tiles: Seq<Tile>, screen: Rect, app_process_id: i32)
    ensures
        ({
            let after = grown_layout(tiles, screen, app_process_id);
            &&& after.len() == tiles.len() + 1
            &&& after.last().app_process_id == app_process_id
            &&& forall|k: int|
                0 <= k < tiles.len() ==> (#[trigger] after[k]).app_process_id
                    == tiles[k].app_process_id
            &&& forall|k: int| 0 <= k < tiles.len() - 1 ==> #[trigger] after[k] == tiles[k]
        }),
{
}

/// Growing a tree leaves the region of every node that was there as it was.
pub proof fn lemma_grown_region(nodes: Seq<TileNode>, screen: Rect, app_process_id: i32, i: int)
    requires
        arena_wf(nodes, screen),
        0 <= i < nodes.len(),
    ensures
        region(grown(nodes, screen, app_process_id), screen, i) == region(nodes, screen, i),
    decreases i,
{
    lemma_target_leaf(nodes, screen, 0);
    assert(node_wf(nodes, screen, i));
    if i > 0 {
        lemma_grown_region(nodes, screen, app_process_id, nodes[i].parent.unwrap() as int);
    }
}

/// Growing a tree replaces, below every node on the way to the target leaf,
/// the last tile by the two that share its rectangle, and makes the new right
/// child the target leaf.
pub proof fn lemma_grown_in_order(
    nodes: Seq<TileNode>,
    screen: Rect,
    app_process_id: i32,
    i: int,
)
    requires
        arena_wf(nodes, screen),
        nodes.len() + 2 <= usize::MAX,
        0 <= i < nodes.len(),
        target_leaf(nodes, i) == target_leaf(nodes, 0),
    ensures
        ({
            let after = grown(nodes, screen, app_process_id);
            let left = after[nodes.len() as int];
            let right = after[nodes.len() as int + 1];
            &&& in_order(nodes, i).len() > 0
            &&& in_order(after, i) == in_order(nodes, i).drop_last().push(left.tile.unwrap()).push(
                right.tile.unwrap(),
            )
            &&& target_leaf(after, i) == nodes.len() + 1
        }),
    decreases nodes.len() - i,
{
    let after = grown(nodes, screen, app_process_id);
    let n = nodes.len() as int;
    lemma_target_leaf(nodes, screen, i);
    assert(node_wf(nodes, screen, i));
    assert(target_leaf(after, n + 1) == n + 1);
    if nodes[i].spec_is_leaf() {
        assert(in_order(after, i) =~= in_order(after, n) + in_order(after, n + 1));
    } else {
        let l = nodes[i].left.unwrap() as int;
        let r = nodes[i].right.unwrap() as int;
        assert(node_wf(nodes, screen, l));
        lemma_target_leaf(nodes, screen, r);
        lemma_grown_in_order(nodes, screen, app_process_id, r);
        assert(in_order(nodes, i) =~= in_order(nodes, l) + in_order(nodes, r));
        assert(in_order(after, i) =~= in_order(after, l) + in_order(after, r));
    }
}

/// Growing a tile tree gives a tile tree, whose tiles are those that
/// [`grown_layout`] describes.
pub proof fn lemma_grown(nodes: Seq<TileNode>, screen: Rect, app_process_id: i32)
    requires
        arena_wf(nodes, screen),
        grown(nodes, screen, app_process_id).len() <= usize::MAX,
    ensures
        arena_wf(grown(nodes, screen, app_process_id), screen),
        in_order(grown(nodes, screen, app_process_id), 0) == grown_layout(
            in_order(nodes, 0),
            screen,
            app_process_id,
        ),
{
    let after = grown(nodes, screen, app_process_id);
    if nodes.len() > 0 {
        let target = target_leaf(nodes, 0);
        lemma_target_leaf(nodes, screen, 0);
        lemma_grown_in_order(nodes, screen, app_process_id, 0);
        assert(node_wf(nodes, screen, target));
        assert(node_wf(nodes, screen, 0));
        assert forall|j: int| 0 <= j < after.len() implies #[trigger] node_wf(
            after,
            screen,
            j,
        ) by {
            if j < nodes.len() {
                assert(node_wf(nodes, screen, j));
                lemma_grown_region(nodes, screen, app_process_id, j);
            } else {
                lemma_grown_region(nodes, screen, app_process_id, target);
            }
        }
    }
}

} // verus!
