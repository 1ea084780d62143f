//! Integer grid positions and pointer buttons.

use vstd::prelude::*;

verus! {

/// A pointer button that gameplay logic may query.
#[derive(Debug, Clone, Copy, PartialEq, Eq, Structural)]
pub enum Button {
    MouseLeft,
    MouseMiddle,
    MouseRight,
}

/// A cell coordinate on the game grid. `x` grows to the right, `y` downwards.
#[derive(Debug, Clone, Copy, PartialEq, Eq, Hash, Structural)]
pub struct Pos {
    pub x: i32,
    pub y: i32,
}

impl Pos {
    pub fn new(x: i32, y: i32) -> (p: Pos)
        ensures
            p == (Pos { x, y }),
    {
        Pos { x, y }
    }
}

/// The step from `rhs` to `self`, as the pair of the differences in `x` and
/// in `y`. Both differences must fit.
impl core::ops::Sub<Pos> for Pos {
    type Output = (i32, i32);

    fn sub(self, rhs: Pos) -> (step: (i32, i32)) {
        (self.x - rhs.x, self.y - rhs.y)
    }
}

impl vstd::std_specs::ops::SubSpecImpl<Pos> for Pos {
    open spec fn obeys_sub_spec() -> bool {
        true
    }

    open spec fn sub_req(self, rhs: Pos) -> bool {
        &&& i32::MIN <= self.x - rhs.x <= i32::MAX
        &&& i32::MIN <= self.y - rhs.y <= i32::MAX
    }

    open spec fn sub_spec(self, rhs: Pos) -> (i32, i32) {
        ((self.x - rhs.x) as i32, (self.y - rhs.y) as i32)
    }
}

} // verus!
