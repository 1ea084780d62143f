//! The arrows that show a path on the map.
//!
//! Every cell of a path but the first gets an arrow. A cell that the path
//! passes through gets the arrow for the step into it and the step out of
//! it; the last cell gets the arrow head for the step into it.

use vstd::prelude::*;
use crate::field::adjacent;
use crate::pos::Pos;

verus! {

/// The picture of one piece of a path. The double names give the two sides
/// of the cell that the path crosses; the single names are arrow heads.
#[derive(Debug, Clone, Copy, PartialEq, Eq, Structural)]
pub enum Arrow {
    WestEast,
    NorthSouth,
    NorthEast,
    SouthEast,
    WestNorth,
    WestSouth,
    West,
    East,
    South,
    North,
}

/// One step on the map: to the left, to the right, down (`y` grows) or up.
#[derive(Debug, Clone, Copy, PartialEq, Eq, Structural)]
pub enum Heading {
    Left,
    Right,
    Down,
    Up,
}

/// The heading of the step `(dx, dy)`, if it is one step.
pub open spec fn heading_of(dx: int, dy: int) -> Option<Heading> {
    if dx == -1 && dy == 0 {
        Some(Heading::Left)
    } else if dx == 1 && dy == 0 {
        Some(Heading::Right)
    } else if dx == 0 && dy == 1 {
        Some(Heading::Down)
    } else if dx == 0 && dy == -1 {
        Some(Heading::Up)
    } else {
        None
    }
}

/// The heading of the step from `from` to `to`.
pub open spec fn heading_between(from: Pos, to: Pos) -> Option<Heading> {
    heading_of(to.x - from.x, to.y - from.y)
}

/// The arrow for a cell that is entered with heading `before` and left with
/// heading `after`. There is none for a step back.
pub open spec fn bend(before: Heading, after: Heading) -> Option<Arrow> {
    match (before, after) {
        (Heading::Left, Heading::Left) | (Heading::Right, Heading::Right) => Some(Arrow::WestEast),
        (Heading::Up, Heading::Up) | (Heading::Down, Heading::Down) => Some(Arrow::NorthSouth),
        (Heading::Down, Heading::Right) | (Heading::Left, Heading::Up) => Some(Arrow::NorthEast),
        (Heading::Up, Heading::Right) | (Heading::Left, Heading::Down) => Some(Arrow::SouthEast),
        (Heading::Down, Heading::Left) | (Heading::Right, Heading::Up) => Some(Arrow::WestNorth),
        (Heading::Up, Heading::Left) | (Heading::Right, Heading::Down) => Some(Arrow::WestSouth),
        _ => None,
    }
}

/// The arrow head for a path that ends with heading `last`.
pub open spec fn head(last: Heading) -> Arrow {
    match last {
        Heading::Left => Arrow::West,
        Heading::Right => Arrow::East,
        Heading::Down => Arrow::South,
        Heading::Up => Arrow::North,
    }
}

/// A path that can be shown: every step goes to a neighbour and none goes
/// back to where the step before came from.
pub open spec fn walkable(path: Seq<Pos>) -> bool {
    &&& forall|i: int| 0 <= i < path.len() - 1 ==> adjacent(#[trigger] path[i], path[i + 1])
    &&& forall|i: int| 0 <= i < path.len() - 2 ==> #[trigger] path[i] != path[i + 2]
}

/// The arrow of the cell at place `i` of a walkable path, `1 <= i`.
pub open spec fn arrow_at(path: Seq<Pos>, i: int) -> Arrow {
    let into = heading_between(path[i - 1], path[i]).unwrap();
    if i == path.len() - 1 {
        head(into)
    } else {
        bend(into, heading_between(path[i], path[i + 1]).unwrap()).unwrap()
    }
}

/// The arrows of a walkable path: for each cell but the first, in order,
/// the cell and its arrow.
pub open spec fn arrows_of(path: Seq<Pos>) -> Seq<(Pos, Arrow)> {
    if path.len() < 2 {
        Seq::empty()
    } else {
        Seq::new((path.len() - 1) as nat, |i: int| (path[i + 1], arrow_at(path, i + 1)))
    }
}

/// On a walkable path every step has a heading and every cell in between
/// has an arrow.
pub proof fn lemma_walkable(path: Seq<Pos>, i: int)
    requires
        walkable(path),
        1 <= i < path.len(),
    ensures
        heading_between(path[i - 1], path[i]) is Some,
        i < path.len() - 1 ==> bend(
            heading_between(path[i - 1], path[i]).unwrap(),
            heading_between(path[i], path[i + 1]).unwrap(),
        ) is Some,
{
    assert(adjacent(path[i - 1], path[i]));
    if i < path.len() - 1 {
        assert(adjacent(path[i], path[i + 1]));
        assert(path[i - 1] != path[i + 1]);
    }
}

impl Arrow {
    /// The name of the sprite that shows the arrow.
    pub fn sprite(self) -> (name: &'static str)
        ensures
            name@ == match self {
                Arrow::WestEast => "arrow_we"@,
                Arrow::NorthSouth => "arrow_ns"@,
                Arrow::NorthEast => "arrow_ne"@,
                Arrow::SouthEast => "arrow_se"@,
                Arrow::WestNorth => "arrow_wn"@,
                Arrow::WestSouth => "arrow_ws"@,
                Arrow::West => "arrow_w"@,
                Arrow::East => "arrow_e"@,
                Arrow::South => "arrow_s"@,
                Arrow::North => "arrow_n"@,
            },
    {
        match self {
            Arrow::WestEast => "arrow_we",
            Arrow::NorthSouth => "arrow_ns",
            Arrow::NorthEast => "arrow_ne",
            Arrow::SouthEast => "arrow_se",
            Arrow::WestNorth => "arrow_wn",
            Arrow::WestSouth => "arrow_ws",
            Arrow::West => "arrow_w",
            Arrow::East => "arrow_e",
            Arrow::South => "arrow_s",
            Arrow::North => "arrow_n",
        }
    }
}

/// The heading of the step from `from` to `to`, if it is one step to a
/// neighbour.
pub fn heading(from: Pos, to: Pos) -> (h: Option<Heading>)
    ensures
        h == heading_between(from, to),
        h is Some <==> adjacent(from, to),
{
    if to.y == from.y {
        if from.x > i32::MIN && to.x == from.x - 1 {
            Some(Heading::Left)
        } else if from.x < i32::MAX && to.x == from.x + 1 {
            Some(Heading::Right)
        } else {
            None
        }
    } else if to.x == from.x {
        if from.y < i32::MAX && to.y == from.y + 1 {
            Some(Heading::Down)
        } else if from.y > i32::MIN && to.y == from.y - 1 {
            Some(Heading::Up)
        } else {
            None
        }
    } else {
        None
    }
}

/// The arrow for a cell entered with heading `before` and left with heading
/// `after`.
pub fn bend_arrow(before: Heading, after: Heading) -> (arrow: Option<Arrow>)
    ensures
        arrow == bend(before, after),
{
    match (before, after) {
        (Heading::Left, Heading::Left) | (Heading::Right, Heading::Right) => Some(Arrow::WestEast),
        (Heading::Up, Heading::Up) | (Heading::Down, Heading::Down) => Some(Arrow::NorthSouth),
        (Heading::Down, Heading::Right) | (Heading::Left, Heading::Up) => Some(Arrow::NorthEast),
        (Heading::Up, Heading::Right) | (Heading::Left, Heading::Down) => Some(Arrow::SouthEast),
        (Heading::Down, Heading::Left) | (Heading::Right, Heading::Up) => Some(Arrow::WestNorth),
        (Heading::Up, Heading::Left) | (Heading::Right, Heading::Down) => Some(Arrow::WestSouth),
        _ => None,
    }
}

/// The arrow head for a path that ends with heading `last`.
pub fn head_arrow(last: Heading) -> (arrow: Arrow)
    ensures
        arrow == head(last),
{
    match last {
        Heading::Left => Arrow::West,
        Heading::Right => Arrow::East,
        Heading::Down => Arrow::South,
        Heading::Up => Arrow::North,
    }
}

/// Whether `path` can be shown.
pub fn is_walkable(path: &Vec<Pos>) -> (yes: bool)
    ensures
        yes == walkable(path@),
{
    let mut i: usize = 1;
    while i < path.len()
        invariant
            1 <= i,
            forall|a: int| 0 <= a < i - 1 && a < path@.len() - 1 ==> adjacent(
                #[trigger] path@[a],
                path@[a + 1],
            ),
            forall|a: int| 0 <= a < i - 2 && a < path@.len() - 2 ==> #[trigger] path@[a] != path@[a
                + 2],
        decreases path@.len() - i,
    {
        if heading(path[i - 1], path[i]).is_none() {
            assert(!adjacent(path@[i - 1], path@[i - 1 + 1]));
            return false;
        }
        if i >= 2 && path[i - 2] == path[i] {
            assert(path@[i - 2] == path@[i - 2 + 2]);
            return false;
        }
        i = i + 1;
    }
    true
}

/// The arrows that show `path`: for each cell but the first, in order, the
/// cell and its arrow.
pub fn path_arrows(path: &Vec<Pos>) -> (arrows: Vec<(Pos, Arrow)>)
    requires
        walkable(path@),
    ensures
        arrows@ == arrows_of(path@),
{
    let mut arrows: Vec<(Pos, Arrow)> = Vec::new();
    if path.len() < 2 {
        return arrows;
    }
    let mut i: usize = 1;
    while i < path.len()
        invariant
            walkable(path@),
            path@.len() >= 2,
            1 <= i <= path@.len(),
            arrows@.len() == i - 1,
            forall|a: int| 0 <= a < i - 1 ==> #[trigger] arrows@[a] == (path@[a + 1], arrow_at(path@, a + 1)),
        decreases path@.len() - i,
    {
        proof {
            lemma_walkable(path@, i as int);
        }
        let into = heading(path[i - 1], path[i]).unwrap();
        let arrow = if i == path.len() - 1 {
            head_arrow(into)
        } else {
            let out = heading(path[i], path[i + 1]).unwrap();
            bend_arrow(into, out).unwrap()
        };
        arrows.push((path[i], arrow));
        i = i + 1;
    }
    assert(arrows@ =~= arrows_of(path@));
    arrows
}

} // verus!
