//! Runtime core of a tile-based tactics game.
//!
//! - `pos`, `grid`: cells and rectangular grids of values.
//! - `arena_model`, `genarena`: a store of units behind generation-checked
//!   keys, and the laws that make a stale key harmless.
//! - `field`, `worklist`, `dijkstra`, `spread`, `ascent`: relaxation of a
//!   potential field, what it leaves behind, and the paths that climb it.
//! - `terrain`, `game`, `planner`, `turn`, `arrows`: the map, the units, the
//!   plan of a move, one frame of the player's turn and how a path is shown.
//! - `tasks`: the move of a unit, cut into pieces for a scheduler.
//! - `host`: the decisions of the host that reloads the game logic while
//!   the game runs.

pub mod arena_model;
pub mod arrows;
pub mod ascent;
pub mod dijkstra;
pub mod field;
pub mod game;
pub mod genarena;
pub mod grid;
pub mod host;
pub mod planner;
pub mod pos;
pub mod spread;
pub mod sprite;
pub mod tasks;
pub mod terrain;
pub mod turn;
pub mod worklist;
