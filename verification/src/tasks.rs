//! The move of a unit along its path, cut into the pieces that a scheduler
//! runs one at a time.
//!
//! The unit glides to each cell of the path in turn; a leg is the glide to
//! one cell. How long a leg takes is for the caller to say, who reports the
//! end of each leg. When no leg is left, the move is finished: the unit
//! stands in the last cell of the path and the player is asked to confirm.

use vstd::prelude::*;
use crate::arena_model::{ArenaView, Key};
use crate::game::{Actor, GameState, Selection};
use crate::pos::Pos;

verus! {

/// A move under way: the unit, its path and the number of legs done.
pub struct MoveTask<D> {
    key: Key<Actor<D>>,
    path: Vec<Pos>,
    leg: usize,
}

/// What a scheduler does next with a move.
#[derive(Debug, Clone, Copy, PartialEq, Eq, Structural)]
pub enum MoveStep {
    /// Glide on towards this cell, then wait for the given number of ticks.
    Glide(Pos, usize),
    /// No leg is left: finish the move.
    Finish,
}

/// The number of ticks that a move waits after each piece of a glide.
pub const GLIDE_TICKS: usize = 1;

impl<D> MoveTask<D> {
    pub closed spec fn key(&self) -> Key<Actor<D>> {
        self.key
    }

    pub closed spec fn path(&self) -> Seq<Pos> {
        self.path@
    }

    /// The number of legs that are done.
    pub closed spec fn legs_done(&self) -> nat {
        self.leg as nat
    }

    /// No more legs are done than the path has cells, and the path has one.
    pub open spec fn wf(&self) -> bool {
        0 < self.path().len() && self.legs_done() <= self.path().len()
    }

    /// What is to be done next: glide towards the cell of the next leg, or
    /// finish.
    pub open spec fn spec_step(&self) -> MoveStep {
        if self.legs_done() < self.path().len() {
            MoveStep::Glide(self.path()[self.legs_done() as int], GLIDE_TICKS)
        } else {
            MoveStep::Finish
        }
    }

    /// The move of unit `key` along `path`, of which no leg is done.
    pub fn new(key: Key<Actor<D>>, path: Vec<Pos>) -> (task: Self)
        requires
            path@.len() > 0,
        ensures
            task.wf(),
            task.key() == key,
            task.path() == path@,
            task.legs_done() == 0,
    {
        MoveTask { key, path, leg: 0 }
    }

    /// The unit that moves.
    pub fn unit(&self) -> (key: Key<Actor<D>>)
        ensures
            key == self.key(),
    {
        self.key
    }

    /// What is to be done next.
    pub fn step(&self) -> (next: MoveStep)
        requires
            self.wf(),
        ensures
            next == self.spec_step(),
    {
        if self.leg < self.path.len() {
            MoveStep::Glide(self.path[self.leg], GLIDE_TICKS)
        } else {
            MoveStep::Finish
        }
    }

    /// The unit has arrived at the cell of the present leg: go on with the
    /// next one. Nothing changes where no leg is left.
    pub fn arrive(&mut self)
        requires
            old(self).wf(),
        ensures
            final(self).wf(),
            final(self).key() == old(self).key(),
            final(self).path() == old(self).path(),
            final(self).legs_done() == if old(self).legs_done() < old(self).path().len() {
                old(self).legs_done() + 1
            } else {
                old(self).legs_done()
            },
    {
        if self.leg < self.path.len() {
            self.leg = self.leg + 1;
        }
    }

    /// The cell in which the move ends.
    pub fn destination(&self) -> (cell: Pos)
        requires
            self.wf(),
        ensures
            cell == self.path().last(),
    {
        self.path[self.path.len() - 1]
    }

    /// Finish the move: the unit, if it is still there, stands in the last
    /// cell of the path and is drawn at `rest`; the player is asked to
    /// confirm the move. This holds after however many legs.
    pub fn finish(&self, game: &mut GameState<D>, rest: D)
        requires
            self.wf(),
            old(game).wf(),
        ensures
            final(game).wf(),
            final(game).selection == Selection::Confirm(self.key()),
            final(game).actors@ == finished(old(game).actors@, self.key(), self.path().last(), rest),
    {
        let last = self.destination();
        match game.actors.get_mut(self.key) {
            Some(actor) => {
                actor.draw_pos = rest;
                actor.pos = last;
            },
            None => {},
        }
        game.selection = Selection::Confirm(self.key);
    }
}

/// The units after the move of unit `key` has ended in cell `last`: the
/// unit, where `key` still finds it, stands in `last` and is drawn at
/// `rest`, and nothing else has changed.
pub open spec fn finished<D>(
    actors: ArenaView<Actor<D>>,
    key: Key<Actor<D>>,
    last: Pos,
    rest: D,
) -> ArenaView<Actor<D>> {
    match actors.lookup(key) {
        Some(actor) => actors.replace(
            key,
            Actor {
                pos: last,
                draw_pos: rest,
                sprite: actor.sprite,
                team: actor.team,
                unit_type: actor.unit_type,
                hp: actor.hp,
                has_moved: actor.has_moved,
            },
        ),
        None => actors,
    }
}

} // verus!
