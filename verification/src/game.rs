//! The units on the map and whose turn it is to act on them.

use vstd::prelude::*;
use crate::arena_model::{Key, Slot};
use crate::genarena::GenArena;

use crate::pos::Pos;

verus! {

/// The hit points of a unit that has taken no damage.
pub const HP_MAX: i32 = 10;

#[derive(Debug, Clone, Copy, PartialEq, Eq, Structural)]
pub enum Team {
    Blue,
    Red,
}

#[derive(Debug, Clone, Copy, PartialEq, Eq, Structural)]
pub enum UnitType {
    Infantry,
    Tank,
}

/// The team that the player commands.
pub const PLAYER_TEAM: Team = Team::Blue;

/// The team that the player fights.
pub const ENEMY_TEAM: Team = Team::Red;

/// What the asset files say of one kind of unit.
#[derive(Debug, Clone, Copy)]
pub struct EntityDef {
    pub team: Team,
    pub unit_type: UnitType,
}

/// A unit that the map places: the name of its kind and its cell.
pub struct EntityOnMap {
    pub def: String,
    pub pos: Pos,
}

/// A unit on the map. `D` is the position at which the unit is drawn, which
/// moves smoothly between cells; the rules never look at it.
pub struct Actor<D> {
    pub pos: Pos,
    pub draw_pos: D,
    pub sprite: String,
    pub team: Team,
    pub unit_type: UnitType,
    pub hp: i32,
    pub has_moved: bool,
}

/// What the player is doing: nothing, choosing where a unit goes, watching
/// it move, or about to confirm the move.
pub enum Selection<D> {
    Idle,
    Selected(Key<Actor<D>>),
    Moving(Key<Actor<D>>),
    Confirm(Key<Actor<D>>),
}

/// The state of the game that a saved game would hold.
pub struct GameState<D> {
    pub actors: GenArena<Actor<D>>,
    pub selection: Selection<D>,
}

/// The definition that `defs` holds first under the name `name`.
pub open spec fn def_of(defs: Seq<(String, EntityDef)>, name: Seq<char>) -> Option<EntityDef>
    decreases defs.len(),
{
    if defs.len() == 0 {
        None
    } else if defs[0].0@ == name {
        Some(defs[0].1)
    } else {
        def_of(defs.drop_first(), name)
    }
}

/// The unit that the map entity `entity` of kind `def` becomes, drawn at
/// `draw_pos`: at full health, not yet moved, with the name of its kind as
/// its sprite.
pub open spec fn fresh_actor<D>(entity: EntityOnMap, def: EntityDef, draw_pos: D, actor: Actor<D>) -> bool {
    &&& actor.pos == entity.pos
    &&& actor.draw_pos == draw_pos
    &&& actor.sprite@ == entity.def@
    &&& actor.team == def.team
    &&& actor.unit_type == def.unit_type
    &&& actor.hp == HP_MAX
    &&& !actor.has_moved
}

/// `slot` holds, in its first generation, the unit that `entity` becomes
/// under the definitions `defs`, drawn where `draw_at` places it.
pub open spec fn placed<D, F: Fn(Pos) -> D>(
    draw_at: F,
    defs: Seq<(String, EntityDef)>,
    entity: EntityOnMap,
    slot: Slot<Actor<D>>,
) -> bool {
    &&& slot.generation == 0
    &&& slot.value is Some
    &&& def_of(defs, entity.def@) is Some
    &&& call_ensures(draw_at, (entity.pos,), slot.value.unwrap().draw_pos)
    &&& fresh_actor(
        entity,
        def_of(defs, entity.def@).unwrap(),
        slot.value.unwrap().draw_pos,
        slot.value.unwrap(),
    )
}

/// Look up the definition named `name`.
pub fn find_def(defs: &Vec<(String, EntityDef)>, name: &String) -> (found: Option<EntityDef>)
    ensures
        found == def_of(defs@, name@),
{
    let mut i: usize = 0;
    assert(defs@.subrange(0, defs@.len() as int) == defs@);
    while i < defs.len()
        invariant
            i <= defs@.len(),
            def_of(defs@, name@) == def_of(defs@.subrange(i as int, defs@.len() as int), name@),
        decreases defs@.len() - i,
    {
        let ghost rest = defs@.subrange(i as int, defs@.len() as int);
        assert(rest[0] == defs@[i as int]);
        assert(rest.drop_first() == defs@.subrange(i + 1, defs@.len() as int));
        if defs[i].0 == *name {
            return Some(defs[i].1);
        }
        i = i + 1;
    }
    None
}

impl<D> GameState<D> {
    /// The actors are in an arena that is in order.
    pub open spec fn wf(&self) -> bool {
        self.actors.wf()
    }

    /// The game at its start: one unit for every entity that the map places,
    /// in the order of `entities`, and nothing selected. `draw_at` gives the
    /// position at which a unit in a cell is drawn. `None` where an entity
    /// names a kind that `defs` does not hold.
    pub fn new<F: Fn(Pos) -> D>(
        defs: &Vec<(String, EntityDef)>,
        entities: &Vec<EntityOnMap>,
        draw_at: F,
    ) -> (game: Option<GameState<D>>)
        requires
            forall|p: Pos| #[trigger] call_requires(draw_at, (p,)),
        ensures
            game is Some <==> forall|i: int|
                0 <= i < entities@.len() ==> def_of(defs@, (#[trigger] entities@[i]).def@) is Some,
            game matches Some(g) ==> {
                &&& g.wf()
                &&& g.selection is Idle
                &&& g.actors@.free.len() == 0
                &&& g.actors@.slots.len() == entities@.len()
                &&& forall|i: int|
                    0 <= i < entities@.len() ==> placed(
                        draw_at,
                        defs@,
                        entities@[i],
                        #[trigger] g.actors@.slots[i],
                    )
            },
    {
        let mut actors: GenArena<Actor<D>> = GenArena::new();
        let mut i: usize = 0;
        while i < entities.len()
            invariant
                i <= entities@.len(),
                actors.wf(),
                actors@.free.len() == 0,
                actors@.slots.len() == i,
                forall|p: Pos| #[trigger] call_requires(draw_at, (p,)),
                forall|j: int|
                    0 <= j < i ==> def_of(defs@, (#[trigger] entities@[j]).def@) is Some,
                forall|j: int|
                    0 <= j < i ==> placed(draw_at, defs@, entities@[j], #[trigger] actors@.slots[j]),
            decreases entities@.len() - i,
        {
            let entity = &entities[i];
            let def = match find_def(defs, &entity.def) {
                Some(def) => def,
                None => {
                    return None;
                },
            };
            let actor = Actor {
                pos: entity.pos,
                draw_pos: draw_at(entity.pos),
                sprite: entity.def.clone(),
                team: def.team,
                unit_type: def.unit_type,
                hp: HP_MAX,
                has_moved: false,
            };
            let ghost before = actors@;
            actors.insert(actor);
            proof {
                assert forall|j: int| 0 <= j < i + 1 implies placed(
                    draw_at,
                    defs@,
                    entities@[j],
                    #[trigger] actors@.slots[j],
                ) by {
                    if j < i {
                        assert(actors@.slots[j] == before.slots[j]);
                    }
                }
            }
            i = i + 1;
        }
        Some(GameState { actors, selection: Selection::Idle })
    }
}

} // verus!
