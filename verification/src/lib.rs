//! Binary space partitioning of a screen into tiles.
//!
//! A [`tree::TileTree`] divides a screen rectangle among the items that are
//! inserted into it, one [`tile::Tile`] per item.  Each new item shares the
//! rectangle of the tile that was placed last, half and half, with cuts that
//! alternate between vertical and horizontal; [`geometry`] has the rectangles
//! and their halves.
//!
//! Every function of this crate has a contract over a mathematical model,
//! and Verus checks that the code meets it: no arithmetic overflows and no
//! index is out of bounds, the tiles of a tree never overlap, and a traversal
//! yields them in the order in which their items were placed.

pub mod geometry;
pub mod tile;
pub mod tree;
