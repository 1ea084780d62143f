//! Where the picture of a sprite lies on the sheet of tiles.

use vstd::prelude::*;

verus! {

/// The offset of a sprite on the sheet, in pixels from its top left corner.
#[derive(Debug, Clone, Copy, PartialEq, Eq, Structural)]
pub struct SpriteData {
    pub x: i32,
    pub y: i32,
}

} // verus!
