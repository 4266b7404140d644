//! The bookkeeping of a traversal that keeps the subtrees it has yet to enter
//! on a stack.

use vstd::prelude::*;
use crate::geometry::Rect;
use crate::tile::Tile;
use crate::tree::arena::{arena_wf, in_order, lemma_target_leaf};
use crate::tree::TileNode;

verus! {

/// The tiles that a traversal still has to emit when `stack` holds the roots
/// of the subtrees that it has not entered yet, the next one last.
pub open spec fn pending(nodes: Seq<TileNode>, stack: Seq<usize>) -> Seq<Tile>
    decreases stack.len(),
{
    if stack.len() == 0 {
        Seq::empty()
    } else {
        in_order(nodes, stack.last() as int) + pending(nodes, stack.drop_last())
    }
}

/// Every subtree that waits on the stack holds at least one tile.
pub proof fn lemma_pending_len(nodes: Seq<TileNode>, screen: Rect, stack: Seq<usize>)
    requires
        arena_wf(nodes, screen),
        forall|k: int| 0 <= k < stack.len() ==> stack[k] < nodes.len(),
    ensures
        pending(nodes, stack).len() >= stack.len(),
    decreases stack.len(),
{
    if stack.len() > 0 {
        lemma_target_leaf(nodes, screen, stack.last() as int);
        lemma_pending_len(nodes, screen, stack.drop_last());
    }
}

} // verus!
