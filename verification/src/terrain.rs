//! Ground and terrain of the map, and what it costs a unit to enter a cell.

use vstd::prelude::*;
use crate::grid::Grid;

verus! {

/// The cost of a cell that no unit can enter.
pub const IMPASSABLE: i32 = 9999;

#[derive(Debug, Clone, Copy, PartialEq, Eq, Structural)]
pub enum GroundType {
    Ground,
    Water,
}

#[derive(Debug, Clone, Copy, PartialEq, Eq, Structural)]
pub enum TerrainType {
    Bare,
    Street,
    Forest,
}

/// What the map stores as code `code` on its ground layer.
pub open spec fn ground_of(code: i64) -> Option<GroundType> {
    if code == 1 {
        Some(GroundType::Ground)
    } else if code == 2 {
        Some(GroundType::Water)
    } else {
        None
    }
}

/// What the map stores as code `code` on its terrain layer.
pub open spec fn terrain_of(code: i64) -> Option<TerrainType> {
    if code == 0 {
        Some(TerrainType::Bare)
    } else if 1 <= code <= 4 {
        Some(TerrainType::Street)
    } else if code == 5 {
        Some(TerrainType::Forest)
    } else {
        None
    }
}

/// The cost of entering a cell with the given ground and terrain: water
/// cannot be entered, a street costs 1, open ground 2 and forest 3.
pub open spec fn entry_cost(ground: GroundType, terrain: TerrainType) -> int {
    match (ground, terrain) {
        (GroundType::Water, _) => IMPASSABLE as int,
        (GroundType::Ground, TerrainType::Bare) => 2,
        (GroundType::Ground, TerrainType::Street) => 1,
        (GroundType::Ground, TerrainType::Forest) => 3,
    }
}

/// The ground that a map code stands for; `None` for a code without meaning.
pub fn ground_from_code(code: i64) -> (ground: Option<GroundType>)
    ensures
        ground == ground_of(code),
{
    if code == 1 {
        Some(GroundType::Ground)
    } else if code == 2 {
        Some(GroundType::Water)
    } else {
        None
    }
}

/// The terrain that a map code stands for; `None` for a code without meaning.
pub fn terrain_from_code(code: i64) -> (terrain: Option<TerrainType>)
    ensures
        terrain == terrain_of(code),
{
    if code == 0 {
        Some(TerrainType::Bare)
    } else if 1 <= code && code <= 4 {
        Some(TerrainType::Street)
    } else if code == 5 {
        Some(TerrainType::Forest)
    } else {
        None
    }
}

/// What it costs to enter a cell with the given ground and terrain.
pub fn terrain_cost(ground: GroundType, terrain: TerrainType) -> (cost: i32)
    ensures
        cost == entry_cost(ground, terrain),
        1 <= cost <= IMPASSABLE,
{
    match (ground, terrain) {
        (GroundType::Water, _) => IMPASSABLE,
        (GroundType::Ground, TerrainType::Bare) => 2,
        (GroundType::Ground, TerrainType::Street) => 1,
        (GroundType::Ground, TerrainType::Forest) => 3,
    }
}

/// Ground and terrain of every cell of the map.
pub struct GameMap {
    pub ground: Grid<GroundType>,
    pub terrain: Grid<TerrainType>,
}

impl GameMap {
    /// Both layers are grids of one shape.
    pub open spec fn wf(&self) -> bool {
        &&& self.ground.wf()
        &&& self.terrain.wf()
        &&& self.terrain.same_shape(&self.ground)
    }

    /// Read the two layers of a map `width` cells wide and `height` cells
    /// high from their codes, stored row by row. `None` where a layer has
    /// not one code per cell or holds a code without meaning.
    pub fn from_codes(width: i32, height: i32, ground: &Vec<i64>, terrain: &Vec<i64>) -> (map: Option<
        GameMap,
    >)
        requires
            0 <= width,
            0 <= height,
        ensures
            map is Some <==> (ground@.len() == height * width && terrain@.len() == height * width
                && (forall|i: int| 0 <= i < ground@.len() ==> ground_of(#[trigger] ground@[i]) is Some)
                && (forall|i: int|
                0 <= i < terrain@.len() ==> terrain_of(#[trigger] terrain@[i]) is Some)),
            map matches Some(m) ==> {
                &&& m.wf()
                &&& m.ground.spec_width() == width
                &&& m.ground.spec_height() == height
                &&& forall|i: int|
                    0 <= i < ground@.len() ==> Some(#[trigger] m.ground@[i]) == ground_of(ground@[i])
                &&& forall|i: int|
                    0 <= i < terrain@.len() ==> Some(#[trigger] m.terrain@[i]) == terrain_of(
                        terrain@[i],
                    )
            },
    {
        let mut ground_cells: Vec<GroundType> = Vec::new();
        let mut i: usize = 0;
        while i < ground.len()
            invariant
                i <= ground@.len(),
                ground_cells@.len() == i,
                forall|j: int| 0 <= j < i ==> Some(#[trigger] ground_cells@[j]) == ground_of(ground@[j]),
            decreases ground@.len() - i,
        {
            match ground_from_code(ground[i]) {
                Some(g) => {
                    ground_cells.push(g);
                },
                None => {
                    assert(ground_of(ground@[i as int]) is None);
                    return None;
                },
            }
            i = i + 1;
        }
        let mut terrain_cells: Vec<TerrainType> = Vec::new();
        let mut i: usize = 0;
        while i < terrain.len()
            invariant
                i <= terrain@.len(),
                terrain_cells@.len() == i,
                forall|j: int|
                    0 <= j < i ==> Some(#[trigger] terrain_cells@[j]) == terrain_of(terrain@[j]),
            decreases terrain@.len() - i,
        {
            match terrain_from_code(terrain[i]) {
                Some(t) => {
                    terrain_cells.push(t);
                },
                None => {
                    assert(terrain_of(terrain@[i as int]) is None);
                    return None;
                },
            }
            i = i + 1;
        }
        assert forall|j: int| 0 <= j < ground@.len() implies ground_of(
            #[trigger] ground@[j],
        ) is Some by {
            assert(Some(ground_cells@[j]) == ground_of(ground@[j]));
        }
        assert forall|j: int| 0 <= j < terrain@.len() implies terrain_of(
            #[trigger] terrain@[j],
        ) is Some by {
            assert(Some(terrain_cells@[j]) == terrain_of(terrain@[j]));
        }
        match (Grid::from_vec(width, height, ground_cells), Grid::from_vec(width, height, terrain_cells)) {
            (Some(ground_layer), Some(terrain_layer)) => Some(
                GameMap { ground: ground_layer, terrain: terrain_layer },
            ),
            _ => None,
        }
    }
}

} // verus!
