//! The tile: the part of the screen that one item occupies.

use vstd::prelude::*;
use crate::geometry::Rect;

verus! {

/// A rectangle of the screen together with the item that it is assigned to.
///
/// The identifier is chosen by the caller and means nothing to this crate:
/// two tiles may carry the same one.
#[derive(Debug, Clone, Copy, PartialEq, Eq, Structural)]
pub struct Tile {
    pub app_process_id: i32,
    pub boundary: Rect,
}

impl Tile {
    /// The tile that assigns `boundary` to the item `app_process_id`.
    pub fn new(app_process_id: i32, boundary: Rect) -> (tile: Tile)
        ensures
            tile == (Tile { app_process_id, boundary }),
    {
        Tile { app_process_id, boundary }
    }
}

} // verus!
