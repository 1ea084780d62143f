//! One frame of the player's turn: what the pointer selects, what a press
//! starts, and what is to be shown.

use vstd::prelude::*;
use crate::arena_model::{ArenaView, Key};
use crate::arrows::walkable;
use crate::game::{Actor, GameState, Selection, PLAYER_TEAM};
use crate::genarena::GenArena;
use crate::planner::{plan_move, plan_of, MovePlan};
use crate::pos::Pos;
use crate::tasks::MoveTask;
use crate::terrain::GameMap;

verus! {

/// What a frame leaves to be drawn and done.
pub enum Frame<D> {
    /// Nothing is selected: the cursor follows the pointer.
    Pointing,
    /// A unit is selected: the cursor marks it, and its plan is shown where
    /// its cell lies on the map. With `order` given, the move has begun and
    /// the order is to be handed to the scheduler.
    Planning { unit: Key<Actor<D>>, plan: Option<MovePlan>, order: Option<MoveTask<D>> },
    /// Nothing to show: a move is under way or has just been confirmed, or
    /// the selected unit is gone.
    Waiting,
}

/// The first of `keys` that finds a unit of the player in cell `p`.
pub open spec fn first_own_at<D>(actors: ArenaView<Actor<D>>, keys: Seq<Key<Actor<D>>>, p: Pos) -> Option<
    Key<Actor<D>>,
>
    decreases keys.len(),
{
    if keys.len() == 0 {
        None
    } else if actors.lookup(keys[0]) is Some && actors.lookup(keys[0]).unwrap().pos == p
        && actors.lookup(keys[0]).unwrap().team == PLAYER_TEAM {
        Some(keys[0])
    } else {
        first_own_at(actors, keys.drop_first(), p)
    }
}

/// What is selected after a frame in which the pointer is over cell
/// `pointer` and the button is pressed or not, where `path` is the path of
/// the plan of the selected unit.
pub open spec fn selection_after<D>(
    before: Selection<D>,
    actors: ArenaView<Actor<D>>,
    pointer: Pos,
    pressed: bool,
    path: Seq<Pos>,
) -> Selection<D> {
    match before {
        Selection::Idle => {
            if pressed {
                match first_own_at(actors, actors.keys(), pointer) {
                    Some(key) => Selection::Selected(key),
                    None => Selection::Idle,
                }
            } else {
                Selection::Idle
            }
        },
        Selection::Selected(key) => {
            if actors.lookup(key) is Some && pressed && path.len() > 0 {
                Selection::Moving(key)
            } else {
                Selection::Selected(key)
            }
        },
        Selection::Moving(key) => Selection::Moving(key),
        Selection::Confirm(key) => Selection::Idle,
    }
}

/// The first unit of the player in cell `p`, in the order of the slots.
pub fn own_unit_at<D>(actors: &GenArena<Actor<D>>, p: Pos) -> (found: Option<Key<Actor<D>>>)
    ensures
        found == first_own_at(actors@, actors@.keys(), p),
{
    let listed = actors.iter_keys();
    let ghost keys = actors@.keys();
    let mut i: usize = 0;
    assert(keys.subrange(0, keys.len() as int) == keys);
    while i < listed.len()
        invariant
            i <= listed@.len(),
            listed@.len() == keys.len(),
            keys == actors@.keys(),
            forall|a: int|
                0 <= a < listed@.len() ==> (#[trigger] listed@[a]).0 == keys[a] && actors@.lookup(
                    keys[a],
                ) == Some(*listed@[a].1),
            first_own_at(actors@, keys, p) == first_own_at(
                actors@,
                keys.subrange(i as int, keys.len() as int),
                p,
            ),
        decreases listed@.len() - i,
    {
        let ghost rest = keys.subrange(i as int, keys.len() as int);
        assert(rest[0] == keys[i as int]);
        assert(rest.drop_first() == keys.subrange(i + 1, keys.len() as int));
        let (key, actor) = listed[i];
        assert(listed@[i as int].0 == keys[i as int]);
        if actor.pos == p && actor.team == PLAYER_TEAM {
            return Some(key);
        }
        i = i + 1;
    }
    None
}

/// A copy of `cells`.
fn copy_cells(cells: &Vec<Pos>) -> (copy: Vec<Pos>)
    ensures
        copy@ == cells@,
{
    let mut copy: Vec<Pos> = Vec::new();
    let mut i: usize = 0;
    while i < cells.len()
        invariant
            i <= cells@.len(),
            copy@ == cells@.subrange(0, i as int),
        decreases cells@.len() - i,
    {
        copy.push(cells[i]);
        i = i + 1;
    }
    assert(cells@.subrange(0, cells@.len() as int) == cells@);
    copy
}

/// Run one frame of the player's turn with the pointer over cell `pointer`.
///
/// With nothing selected, a press selects the player's unit under the
/// pointer. With a unit selected, its move towards the pointer is planned;
/// a press then starts the move if the plan has a path. While a unit moves
/// nothing changes, and a move that waits to be confirmed is confirmed. The
/// units themselves never change.
pub fn play_frame<D>(game: &mut GameState<D>, map: &GameMap, pointer: Pos, pressed: bool) -> (frame:
    Frame<D>)
    requires
        old(game).wf(),
        map.wf(),
    ensures
        final(game).wf(),
        final(game).actors@ == old(game).actors@,
        final(game).selection == selection_after(
            old(game).selection,
            old(game).actors@,
            pointer,
            pressed,
            match frame {
                Frame::Planning { plan: Some(p), .. } => p.path@,
                _ => Seq::empty(),
            },
        ),
        match old(game).selection {
            Selection::Idle => frame is Pointing,
            Selection::Selected(key) => match old(game).actors@.lookup(key) {
                Some(actor) => frame matches Frame::Planning { unit, plan, order } && unit == key
                    && (plan is Some <==> map.ground.contains_pos(actor.pos)) && (plan matches Some(
                    p,
                ) ==> p.range.wf() && p.route.wf() && p.range.same_shape(&map.ground)
                    && p.route.same_shape(&map.ground) && walkable(p.path@) && plan_of(
                    map,
                    old(game).actors@,
                    actor.pos,
                    pointer,
                    p.range@,
                    p.route@,
                    p.path@,
                )) && (order is Some <==> pressed && plan is Some && plan.unwrap().path@.len() > 0)
                    && (order matches Some(task) ==> task.wf() && task.key() == key && task.path()
                    == plan.unwrap().path@ && task.legs_done() == 0),
                None => frame is Waiting,
            },
            Selection::Moving(_) => frame is Waiting,
            Selection::Confirm(_) => frame is Waiting,
        },
{
    match game.selection {
        Selection::Idle => {
            if pressed {
                match own_unit_at(&game.actors, pointer) {
                    Some(key) => {
                        game.selection = Selection::Selected(key);
                    },
                    None => {},
                }
            }
            Frame::Pointing
        },
        Selection::Selected(key) => {
            let start = match game.actors.get(key) {
                Some(actor) => actor.pos,
                None => {
                    return Frame::Waiting;
                },
            };
            let plan = plan_move(map, &game.actors, start, pointer);
            let mut order: Option<MoveTask<D>> = None;
            match &plan {
                Some(p) => {
                    if pressed && p.path.len() > 0 {
                        order = Some(MoveTask::new(key, copy_cells(&p.path)));
                        game.selection = Selection::Moving(key);
                    }
                },
                None => {},
            }
            Frame::Planning { unit: key, plan, order }
        },
        Selection::Moving(_) => Frame::Waiting,
        Selection::Confirm(_) => {
            game.selection = Selection::Idle;
            Frame::Waiting
        },
    }
}

} // verus!
