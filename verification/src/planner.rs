//! Where a selected unit can go and which way it takes.
//!
//! The plan for a move is made of three relaxations. The first spreads the
//! reach of the unit from its cell and gives the cells in range. The second
//! spreads from the goal, the third from the units and the best cell in
//! range, both cut down to the cells in range, so that a path from the unit
//! climbs towards the goal, may pass friends and stays clear of foes.

use vstd::prelude::*;
use crate::arena_model::{ArenaView, Key};
use crate::arrows::walkable;
use crate::ascent::{ascent, lemma_ascent_walkable};
use crate::dijkstra::{dijkstra_path, relax};
use crate::field::{inside, potential, seeded, Relaxation};
use crate::game::{Actor, Team, PLAYER_TEAM};
use crate::genarena::GenArena;
use crate::grid::{
    clamp_coord, clamp_value, flat_index, lemma_cell_of_index, lemma_flat_index_bounds,
    lemma_flat_index_injective, pos_at, Grid,
};
use crate::pos::Pos;
use crate::terrain::{entry_cost, terrain_cost, GameMap, IMPASSABLE};
use crate::worklist::at_most;

verus! {

/// The reach that a unit starts its move with.
pub const MOVE_REACH: i32 = 9;

/// The pull of the goal of a move.
pub const GOAL_PULL: i32 = 99;

/// The value of a cell that a path must not end on.
pub const KEEP_OUT: i32 = -99;

/// A unit stands in cell `p`; with `avoid` given, a unit of another team
/// than `avoid`.
pub open spec fn stands<D>(actors: ArenaView<Actor<D>>, avoid: Option<Team>, p: Pos) -> bool {
    exists|k: Key<Actor<D>>|
        #![trigger actors.lookup(k)]
        actors.lookup(k) is Some && actors.lookup(k).unwrap().pos == p && (avoid is Some
            ==> actors.lookup(k).unwrap().team != avoid.unwrap())
}

/// The field `cells` with `value` in every cell where such a unit stands.
pub open spec fn stamped<D>(
    width: int,
    cells: Seq<i32>,
    actors: ArenaView<Actor<D>>,
    avoid: Option<Team>,
    value: i32,
) -> Seq<i32> {
    Seq::new(
        cells.len(),
        |i: int|
            if stands(actors, avoid, pos_at(width, i)) {
                value
            } else {
                cells[i]
            },
    )
}

/// 1 where `range` is positive, 0 elsewhere.
pub open spec fn mask_of(range: Seq<i32>) -> Seq<i32> {
    Seq::new(range.len(), |i: int| clamp_value(range[i] as int, 0, 1) as i32)
}

/// `cells` where `keep` is 1, 0 where `keep` is 0.
pub open spec fn masked(cells: Seq<i32>, keep: Seq<i32>) -> Seq<i32> {
    Seq::new(cells.len(), |i: int| (cells[i] * keep[i]) as i32)
}

/// The place of the highest value of `cells`; of several, the last.
pub open spec fn peak_index(cells: Seq<i32>) -> int
    decreases cells.len(),
{
    if cells.len() <= 1 {
        0
    } else {
        let before = peak_index(cells.drop_last());
        if cells.last() >= cells[before] {
            cells.len() - 1
        } else {
            before
        }
    }
}

pub proof fn lemma_peak_index(cells: Seq<i32>)
    requires
        cells.len() > 0,
    ensures
        0 <= peak_index(cells) < cells.len(),
    decreases cells.len(),
{
    if cells.len() > 1 {
        lemma_peak_index(cells.drop_last());
    }
}

/// What it costs a unit of `team` to enter cell `p` of the map: as much as
/// the ground and terrain ask, but a cell where a unit of another team
/// stands cannot be entered.
pub open spec fn move_cost<D>(map: &GameMap, actors: ArenaView<Actor<D>>, team: Team, p: Pos) -> int {
    if stands(actors, Some(team), p) {
        IMPASSABLE as int
    } else {
        entry_cost(map.ground.at_pos(p), map.terrain.at_pos(p))
    }
}

/// `costs` holds the cost of every cell of the map for a unit of `team`.
pub open spec fn costs_of<D>(
    map: &GameMap,
    actors: ArenaView<Actor<D>>,
    team: Team,
    costs: Seq<i32>,
) -> bool {
    &&& costs.len() == map.ground.spec_height() * map.ground.spec_width()
    &&& forall|p: Pos|
        map.ground.contains_pos(p) ==> #[trigger] costs[flat_index(
            map.ground.spec_width(),
            p.x as int,
            p.y as int,
        )] == move_cost(map, actors, team, p)
}

/// Whether a unit counts under `avoid`.
fn counts(team: Team, avoid: Option<Team>) -> (yes: bool)
    ensures
        yes == (avoid is Some ==> team != avoid.unwrap()),
{
    match avoid {
        Some(other) => team != other,
        None => true,
    }
}

/// The units among `found` stand exactly where `stands` says.
proof fn lemma_stands<D>(actors: &GenArena<Actor<D>>, found: Seq<&Actor<D>>, avoid: Option<Team>, p: Pos)
    requires
        actors@.slots.len() <= usize::MAX,
        found.len() == actors@.keys().len(),
        forall|i: int|
            0 <= i < found.len() ==> actors@.lookup(actors@.keys()[i]) == Some(
                *#[trigger] found[i],
            ),
    ensures
        stands(actors@, avoid, p) <==> exists|j: int|
            0 <= j < found.len() && (#[trigger] found[j]).pos == p && (avoid is Some
                ==> found[j].team != avoid.unwrap()),
{
    actors@.lemma_keys();
    if stands(actors@, avoid, p) {
        let k = choose|k: Key<Actor<D>>|
            #![trigger actors@.lookup(k)]
            actors@.lookup(k) is Some && actors@.lookup(k).unwrap().pos == p && (avoid is Some
                ==> actors@.lookup(k).unwrap().team != avoid.unwrap());
        assert(actors@.contains(k));
        assert(actors@.keys().contains(k));
        let j = choose|j: int| 0 <= j < actors@.keys().len() && actors@.keys()[j] == k;
        assert(found[j].pos == p);
    }
    if exists|j: int|
        0 <= j < found.len() && (#[trigger] found[j]).pos == p && (avoid is Some ==> found[j].team
            != avoid.unwrap()) {
        let j = choose|j: int|
            0 <= j < found.len() && (#[trigger] found[j]).pos == p && (avoid is Some
                ==> found[j].team != avoid.unwrap());
        let k = actors@.keys()[j];
        assert(actors@.lookup(k) == Some(*found[j]));
    }
}

/// Write `value` into every cell of `grid` where a unit stands; with
/// `avoid` given, only where a unit of another team stands.
pub fn stamp<D>(grid: &mut Grid<i32>, actors: &GenArena<Actor<D>>, avoid: Option<Team>, value: i32)
    requires
        old(grid).wf(),
        actors.wf(),
    ensures
        final(grid).wf(),
        final(grid).same_shape(old(grid)),
        final(grid)@ == stamped(old(grid).spec_width(), old(grid)@, actors@, avoid, value),
{
    let found = actors.iter();
    let ghost w = grid.spec_width();
    let ghost h = grid.spec_height();
    let ghost before = grid@;
    let mut j: usize = 0;
    while j < found.len()
        invariant
            grid.wf(),
            grid.same_shape(old(grid)),
            w == grid.spec_width(),
            h == grid.spec_height(),
            before == old(grid)@,
            grid@.len() == before.len(),
            j <= found@.len(),
            forall|i: int|
                0 <= i < before.len() ==> #[trigger] grid@[i] == if exists|a: int|
                    0 <= a < j && (#[trigger] found@[a]).pos == pos_at(w, i) && (avoid is Some
                        ==> found@[a].team != avoid.unwrap()) {
                    value
                } else {
                    before[i]
                },
        decreases found@.len() - j,
    {
        let actor = found[j];
        let ghost cells = grid@;
        if counts(actor.team, avoid) && grid.in_bounds(actor.pos.x, actor.pos.y) {
            grid.set(actor.pos, value);
        }
        proof {
            assert forall|i: int| 0 <= i < before.len() implies #[trigger] grid@[i] == if exists|
                a: int,
            |
                0 <= a < j + 1 && (#[trigger] found@[a]).pos == pos_at(w, i) && (avoid is Some
                    ==> found@[a].team != avoid.unwrap()) {
                value
            } else {
                before[i]
            } by {
                lemma_cell_of_index(w, h, i);
                let p = pos_at(w, i);
                let hit = actor.pos == p && (avoid is Some ==> actor.team != avoid.unwrap());
                if hit {
                    assert(found@[j as int].pos == p);
                    assert(grid@[i] == value);
                } else {
                    if (avoid is Some ==> actor.team != avoid.unwrap()) && old(grid).contains_pos(
                        actor.pos,
                    ) {
                        let at = flat_index(w, actor.pos.x as int, actor.pos.y as int);
                        lemma_flat_index_bounds(w, h, actor.pos.x as int, actor.pos.y as int);
                        assert(grid@ == cells.update(at, value));
                        assert(flat_index(w, p.x as int, p.y as int) == i);
                        if at == i {
                            lemma_flat_index_injective(
                                w,
                                actor.pos.x as int,
                                actor.pos.y as int,
                                p.x as int,
                                p.y as int,
                            );
                            assert(actor.pos == p);
                            assert(false);
                        }
                        assert(grid@[i] == cells[i]);
                    } else {
                        assert(grid@ == cells);
                    }
                    assert(grid@[i] == cells[i]);
                    if exists|a: int|
                        0 <= a < j + 1 && (#[trigger] found@[a]).pos == p && (avoid is Some
                            ==> found@[a].team != avoid.unwrap()) {
                        let a = choose|a: int|
                            0 <= a < j + 1 && (#[trigger] found@[a]).pos == p && (avoid is Some
                                ==> found@[a].team != avoid.unwrap());
                        assert(a < j);
                    }
                }
            }
        }
        j = j + 1;
    }
    proof {
        let goal = stamped(w, before, actors@, avoid, value);
        assert forall|i: int| 0 <= i < before.len() implies grid@[i] == goal[i] by {
            lemma_stands(actors, found@, avoid, pos_at(w, i));
        }
        assert(grid@ =~= goal);
    }
}

/// The cost of every cell of the map for a unit of `team`: what ground and
/// terrain ask, and `IMPASSABLE` where a unit of another team stands.
pub fn movement_cost<D>(map: &GameMap, actors: &GenArena<Actor<D>>, team: Team) -> (costs: Grid<i32>)
    requires
        map.wf(),
        actors.wf(),
    ensures
        costs.wf(),
        costs.same_shape(&map.ground),
        costs_of(map, actors@, team, costs@),
        forall|i: int| 0 <= i < costs@.len() ==> 1 <= #[trigger] costs@[i] <= IMPASSABLE,
{
    let ghost w = map.ground.spec_width();
    let ghost h = map.ground.spec_height();
    proof {
        assert(w * h == h * w) by (nonlinear_arith);
    }
    let cost_here = |p: Pos| -> (c: i32)
        requires
            map.wf(),
            map.ground.contains_pos(p),
        ensures
            c == entry_cost(map.ground.at_pos(p), map.terrain.at_pos(p)),
        { terrain_cost(*map.ground.get(p.x, p.y), *map.terrain.get(p.x, p.y)) };
    let mut costs = Grid::from_fn(map.ground.width(), map.ground.height(), cost_here);
    let ghost base = costs@;
    let ghost plain = costs;
    proof {
        assert forall|i: int| 0 <= i < base.len() implies 1 <= #[trigger] base[i] <= IMPASSABLE by {
            lemma_cell_of_index(w, h, i);
            let p = pos_at(w, i);
            assert(costs.contains_pos(p));
            assert(call_ensures(cost_here, (p,), costs.at_pos(p)));
        }
    }
    stamp(&mut costs, actors, Some(team), IMPASSABLE);
    proof {
        assert forall|p: Pos| map.ground.contains_pos(p) implies #[trigger] costs@[flat_index(
            w,
            p.x as int,
            p.y as int,
        )] == move_cost(map, actors@, team, p) by {
            let i = flat_index(w, p.x as int, p.y as int);
            lemma_flat_index_bounds(w, h, p.x as int, p.y as int);
            assert(pos_at(w, i) == p);
            assert(call_ensures(cost_here, (p,), plain.at_pos(p)));
        }
    }
    costs
}

/// The cell of `grid` with the highest value; of several, the last in the
/// order of the rows.
pub fn highest_pos(grid: &Grid<i32>) -> (top: Pos)
    requires
        grid.wf(),
        grid@.len() > 0,
    ensures
        top == pos_at(grid.spec_width(), peak_index(grid@)),
        grid.contains_pos(top),
{
    let ghost w = grid.spec_width();
    let ghost h = grid.spec_height();
    let cells = grid.iter_coords();
    proof {
        assert forall|i: int| 0 <= i < cells@.len() implies #[trigger] cells@[i] == (
            pos_at(w, i),
            grid@[i],
        ) by {
            lemma_cell_of_index(w, h, i);
            assert(grid.contains(i % w, i / w));
        }
    }
    let mut best: usize = 0;
    let mut i: usize = 1;
    assert(grid@.subrange(0, 1).len() == 1);
    while i < cells.len()
        invariant
            1 <= i <= cells@.len(),
            cells@.len() == grid@.len(),
            forall|a: int| 0 <= a < cells@.len() ==> #[trigger] cells@[a] == (pos_at(w, a), grid@[a]),
            best == peak_index(grid@.subrange(0, i as int)),
            best < i,
        decreases cells@.len() - i,
    {
        proof {
            let longer = grid@.subrange(0, i + 1);
            assert(longer.drop_last() == grid@.subrange(0, i as int));
            assert(longer.last() == grid@[i as int]);
            assert(longer[best as int] == grid@[best as int]);
        }
        if cells[i].1 >= cells[best].1 {
            best = i;
        }
        i = i + 1;
    }
    proof {
        assert(grid@.subrange(0, grid@.len() as int) == grid@);
        lemma_cell_of_index(w, h, best as int);
    }
    cells[best].0
}

/// One of the first `n` units of `found` stands in cell `p`.
spec fn among<D>(found: Seq<&Actor<D>>, n: int, p: Pos) -> bool {
    exists|a: int| 0 <= a < n && (#[trigger] found[a]).pos == p
}

/// The cells of the units that `keys` find, in the order of the keys,
/// leaving out the units that stand off a grid of the given shape.
pub open spec fn unit_cells<D>(
    width: int,
    height: int,
    actors: ArenaView<Actor<D>>,
    keys: Seq<Key<Actor<D>>>,
) -> Seq<Pos>
    decreases keys.len(),
{
    if keys.len() == 0 {
        Seq::empty()
    } else {
        let before = unit_cells(width, height, actors, keys.drop_last());
        let p = actors.lookup(keys.last()).unwrap().pos;
        if inside(width, height, p) {
            before.push(p)
        } else {
            before
        }
    }
}

/// The cells of `grid` in which a unit stands, one for each unit, in the
/// order of the units in the arena.
pub fn actor_cells<D>(grid: &Grid<i32>, actors: &GenArena<Actor<D>>) -> (cells: Vec<Pos>)
    requires
        actors.wf(),
    ensures
        cells@ == unit_cells(grid.spec_width(), grid.spec_height(), actors@, actors@.keys()),
        forall|p: Pos|
            #![trigger cells@.contains(p)]
            cells@.contains(p) <==> grid.contains_pos(p) && stands(actors@, None::<Team>, p),
{
    let found = actors.iter();
    let ghost w = grid.spec_width();
    let ghost h = grid.spec_height();
    let ghost keys = actors@.keys();
    let mut cells: Vec<Pos> = Vec::new();
    let mut j: usize = 0;
    assert(keys.subrange(0, 0) =~= Seq::<Key<Actor<D>>>::empty());
    while j < found.len()
        invariant
            j <= found@.len(),
            w == grid.spec_width(),
            h == grid.spec_height(),
            keys == actors@.keys(),
            found@.len() == keys.len(),
            forall|i: int|
                0 <= i < found@.len() ==> actors@.lookup(keys[i]) == Some(*#[trigger] found@[i]),
            cells@ == unit_cells(w, h, actors@, keys.subrange(0, j as int)),
            forall|p: Pos|
                #![trigger cells@.contains(p)]
                cells@.contains(p) <==> grid.contains_pos(p) && among(found@, j as int, p),
        decreases found@.len() - j,
    {
        let actor = found[j];
        let ghost before = cells@;
        proof {
            let longer = keys.subrange(0, j + 1);
            assert(longer.drop_last() == keys.subrange(0, j as int));
            assert(longer.last() == keys[j as int]);
            assert(actors@.lookup(keys[j as int]) == Some(*found@[j as int]));
        }
        if grid.in_bounds(actor.pos.x, actor.pos.y) {
            cells.push(actor.pos);
        }
        proof {
            assert forall|p: Pos|
                #![trigger cells@.contains(p)]
                cells@.contains(p) <==> grid.contains_pos(p) && among(found@, j + 1, p) by {
                assert(before.contains(p) <==> grid.contains_pos(p) && among(found@, j as int, p));
                if cells@.contains(p) {
                    let c = choose|c: int| 0 <= c < cells@.len() && cells@[c] == p;
                    if c < before.len() {
                        assert(before[c] == p);
                        assert(before.contains(p));
                        let a = choose|a: int| 0 <= a < j && (#[trigger] found@[a]).pos == p;
                        assert(0 <= a < j + 1 && found@[a].pos == p);
                    } else {
                        assert(found@[j as int].pos == p);
                    }
                }
                if grid.contains_pos(p) && among(found@, j + 1, p) {
                    let a = choose|a: int| 0 <= a < j + 1 && (#[trigger] found@[a]).pos == p;
                    if a < j {
                        assert(among(found@, j as int, p));
                        assert(before.contains(p));
                        let c = choose|c: int| 0 <= c < before.len() && before[c] == p;
                        assert(cells@[c] == p);
                    } else {
                        assert(cells@[before.len() as int] == p);
                    }
                }
            }
        }
        j = j + 1;
    }
    proof {
        assert(keys.subrange(0, keys.len() as int) == keys);
        assert forall|p: Pos|
            #![trigger cells@.contains(p)]
            cells@.contains(p) <==> grid.contains_pos(p) && stands(
                actors@,
                None::<Team>,
                p,
            ) by {
            lemma_stands(actors, found@, None, p);
            if among(found@, found@.len() as int, p) {
                let a = choose|a: int| 0 <= a < found@.len() && (#[trigger] found@[a]).pos == p;
                assert(found@[a].pos == p);
            }
            if stands(actors@, None::<Team>, p) {
                let a = choose|a: int|
                    0 <= a < found@.len() && (#[trigger] found@[a]).pos == p && (None::<Team> is Some
                        ==> found@[a].team != None::<Team>.unwrap());
                assert(among(found@, found@.len() as int, p));
            }
        }
    }
    cells
}

/// The plan for the move of one unit.
pub struct MovePlan {
    /// What is left of the reach of the unit in every cell: positive in the
    /// cells that it can move to.
    pub range: Grid<i32>,
    /// The field that the path climbs.
    pub route: Grid<i32>,
    /// The way of the unit, from its own cell to where it stops.
    pub path: Vec<Pos>,
}

/// The steps that lead to the plan `range`, `route`, `path` for a unit in
/// cell `start` that is to go towards `goal`, with the fields in between.
///
/// `reach` spreads from the cell nearest to the goal; `spread` starts from
/// `reach` cut down to the cells in range, with every unit's cell kept out,
/// and spreads from the units' cells and the best cell in range.
pub open spec fn plan_steps<D>(
    map: &GameMap,
    actors: ArenaView<Actor<D>>,
    start: Pos,
    goal: Pos,
    costs: Seq<i32>,
    reach: Seq<i32>,
    seeds: Seq<Pos>,
    spread: Seq<i32>,
    range: Seq<i32>,
    route: Seq<i32>,
    path: Seq<Pos>,
) -> bool {
    let width = map.ground.spec_width();
    let height = map.ground.spec_height();
    let cells = (height * width) as nat;
    let near = flat_index(width, clamp_coord(goal.x as int, width), clamp_coord(goal.y as int, height));
    let keep = mask_of(range);
    let base = stamped(width, masked(reach, keep), actors, None::<Team>, KEEP_OUT);
    let top = pos_at(width, peak_index(base));
    &&& costs_of(map, actors, PLAYER_TEAM, costs)
    &&& (Relaxation {
        width,
        height,
        start: seeded(cells, flat_index(width, start.x as int, start.y as int), MOVE_REACH),
        seeds: seq![start],
        costs,
    }).result(range)
    &&& (Relaxation {
        width,
        height,
        start: seeded(cells, near, GOAL_PULL),
        seeds: seq![goal],
        costs,
    }).result(reach)
    &&& forall|p: Pos|
        seeds.contains(p) <==> p == top || (inside(width, height, p) && stands(
            actors,
            None::<Team>,
            p,
        ))
    &&& (Relaxation { width, height, start: base, seeds, costs }).result(spread)
    &&& route == stamped(width, masked(spread, keep), actors, Some(PLAYER_TEAM), KEEP_OUT)
    &&& path == if potential(width, route, start) > 0 {
        ascent(width, height, route, start)
    } else {
        Seq::empty()
    }
}

/// `range`, `route` and `path` are the plan for a unit in cell `start` that
/// is to go towards `goal`.
pub open spec fn plan_of<D>(
    map: &GameMap,
    actors: ArenaView<Actor<D>>,
    start: Pos,
    goal: Pos,
    range: Seq<i32>,
    route: Seq<i32>,
    path: Seq<Pos>,
) -> bool {
    exists|costs: Seq<i32>, reach: Seq<i32>, seeds: Seq<Pos>, spread: Seq<i32>|
        plan_steps(map, actors, start, goal, costs, reach, seeds, spread, range, route, path)
}

/// The path of a plan stays in range and clear of foes: every cell of it
/// lies on the map, can be reached by the unit, and holds no unit of
/// another team. The path begins in the cell of the unit.
pub proof fn lemma_path_in_range<D>(
    map: &GameMap,
    actors: ArenaView<Actor<D>>,
    start: Pos,
    goal: Pos,
    range: Seq<i32>,
    route: Seq<i32>,
    path: Seq<Pos>,
)
    requires
        map.wf(),
        map.ground.contains_pos(start),
        plan_of(map, actors, start, goal, range, route, path),
    ensures
        path.len() > 0 ==> path[0] == start,
        forall|i: int|
            0 <= i < path.len() ==> map.ground.contains_pos(#[trigger] path[i]) && potential(
                map.ground.spec_width(),
                range,
                path[i],
            ) > 0 && !stands(actors, Some(PLAYER_TEAM), path[i]),
{
    let w = map.ground.spec_width();
    let h = map.ground.spec_height();
    let (costs, reach, seeds, spread) = choose|
        costs: Seq<i32>,
        reach: Seq<i32>,
        seeds: Seq<Pos>,
        spread: Seq<i32>,
    | plan_steps(map, actors, start, goal, costs, reach, seeds, spread, range, route, path);
    let keep = mask_of(range);
    if path.len() > 0 {
        crate::ascent::lemma_ascent_climbs(w, h, route, start);
        assert forall|i: int| 0 <= i < path.len() implies map.ground.contains_pos(
            #[trigger] path[i],
        ) && potential(w, range, path[i]) > 0 && !stands(actors, Some(PLAYER_TEAM), path[i]) by {
            let p = path[i];
            assert(inside(w, h, p));
            lemma_flat_index_bounds(w, h, p.x as int, p.y as int);
            let at = flat_index(w, p.x as int, p.y as int);
            assert(pos_at(w, at) == p);
            assert(potential(w, route, start) + i <= potential(w, route, p));
            assert(route[at] > 0);
            let cut = masked(spread, keep);
            assert(route[at] == cut[at]);
            assert(keep[at] == clamp_value(range[at] as int, 0, 1));
            if keep[at] == 0 {
                assert(spread[at] * keep[at] == 0) by (nonlinear_arith)
                    requires
                        keep[at] == 0,
                ;
            }
        }
    }
}

/// Plan the move of the player's unit in cell `start` towards `goal`.
///
/// There is a plan where `start` is a cell of the map.
pub fn plan_move<D>(map: &GameMap, actors: &GenArena<Actor<D>>, start: Pos, goal: Pos) -> (plan: Option<
    MovePlan,
>)
    requires
        map.wf(),
        actors.wf(),
    ensures
        plan is Some <==> map.ground.contains_pos(start),
        plan matches Some(p) ==> p.range.wf() && p.route.wf() && p.range.same_shape(&map.ground)
            && p.route.same_shape(&map.ground) && walkable(p.path@) && plan_of(
            map,
            actors@,
            start,
            goal,
            p.range@,
            p.route@,
            p.path@,
        ),
{
    let width = map.ground.width();
    let height = map.ground.height();
    if !map.ground.in_bounds(start.x, start.y) {
        return None;
    }
    let ghost w = width as int;
    let ghost h = height as int;
    proof {
        assert(w * h == h * w) by (nonlinear_arith);
        lemma_flat_index_bounds(w, h, start.x as int, start.y as int);
    }
    let costs = movement_cost(map, actors, PLAYER_TEAM);

    // how far the unit gets
    let mut range: Grid<i32> = Grid::new(width, height, 0);
    range.set(start, MOVE_REACH);
    let ghost range_start = range@;
    relax(&mut range, &[start], &costs);
    let ghost reached = range@;
    proof {
        assert(range_start =~= seeded(
            (h * w) as nat,
            flat_index(w, start.x as int, start.y as int),
            MOVE_REACH,
        ));
        assert([start]@ =~= seq![start]);
    }

    // what pulls it towards the goal
    let mut grid: Grid<i32> = Grid::new(width, height, 0);
    *grid.get_clamped_mut(goal.x, goal.y) = GOAL_PULL;
    let ghost reach_start = grid@;
    relax(&mut grid, &[goal], &costs);
    let ghost reach = grid@;
    proof {
        let near = flat_index(w, clamp_coord(goal.x as int, w), clamp_coord(goal.y as int, h));
        lemma_flat_index_bounds(w, h, clamp_coord(goal.x as int, w), clamp_coord(goal.y as int, h));
        assert(reach_start =~= seeded((h * w) as nat, near, GOAL_PULL));
        assert([goal]@ =~= seq![goal]);
        assert(at_most(reach_start, GOAL_PULL as int));
        assert(at_most(reach, GOAL_PULL as int));
    }
    let mut keep = range.clone();
    keep.clamp_values(0, 1);
    proof {
        assert(keep@ =~= mask_of(reached));
        assert forall|i: int| 0 <= i < keep@.len() implies i32::MIN <= #[trigger] (grid@[i]
            * keep@[i]) <= i32::MAX by {
            assert(reach_start[i] <= reach[i]);
            assert(reach[i] <= GOAL_PULL);
            assert(0 <= keep@[i] <= 1);
            assert(-99 <= grid@[i] * keep@[i] <= 99) by (nonlinear_arith)
                requires
                    0 <= grid@[i] <= 99,
                    0 <= keep@[i] <= 1,
            ;
        }
    }
    grid.mul_inplace(&keep);
    proof {
        assert(grid@ =~= masked(reach, keep@));
    }

    // pass by friends, stop on none
    stamp(&mut grid, actors, None, KEEP_OUT);
    let ghost base = grid@;
    let mut seeds = actor_cells(&grid, actors);
    let ghost standing = seeds@;
    let top = highest_pos(&grid);
    seeds.push(top);
    proof {
        assert forall|p: Pos|
            seeds@.contains(p) <==> p == top || (inside(w, h, p) && stands(
                actors@,
                None::<Team>,
                p,
            )) by {
            assert(standing.contains(p) <==> inside(w, h, p) && stands(actors@, None::<Team>, p));
            if seeds@.contains(p) {
                let c = choose|c: int| 0 <= c < seeds@.len() && seeds@[c] == p;
                if c < standing.len() {
                    assert(standing[c] == p);
                    assert(standing.contains(p));
                } else {
                    assert(p == top);
                }
            }
            if p == top {
                assert(seeds@[standing.len() as int] == p);
            } else if inside(w, h, p) && stands(actors@, None::<Team>, p) {
                assert(standing.contains(p));
                let c = choose|c: int| 0 <= c < standing.len() && standing[c] == p;
                assert(seeds@[c] == p);
            }
        }
        assert forall|i: int| 0 <= i < base.len() implies -99 <= #[trigger] base[i] <= 99 by {
            assert(reach_start[i] <= reach[i]);
            assert(reach[i] <= GOAL_PULL);
            assert(0 <= keep@[i] <= 1);
            assert(-99 <= reach[i] * keep@[i] <= 99) by (nonlinear_arith)
                requires
                    0 <= reach[i] <= 99,
                    0 <= keep@[i] <= 1,
            ;
        }
        assert(at_most(base, 99));
    }
    relax(&mut grid, seeds.as_slice(), &costs);
    let ghost spread = grid@;
    proof {
        assert(at_most(spread, 99));
        assert forall|i: int| 0 <= i < keep@.len() implies i32::MIN <= #[trigger] (grid@[i]
            * keep@[i]) <= i32::MAX by {
            assert(base[i] <= spread[i]);
            assert(spread[i] <= 99);
            assert(0 <= keep@[i] <= 1);
            assert(-99 <= grid@[i] * keep@[i] <= 99) by (nonlinear_arith)
                requires
                    -99 <= grid@[i] <= 99,
                    0 <= keep@[i] <= 1,
            ;
        }
    }
    grid.mul_inplace(&keep);
    proof {
        assert(grid@ =~= masked(spread, keep@));
    }

    // keep clear of foes
    stamp(&mut grid, actors, Some(PLAYER_TEAM), KEEP_OUT);
    let path = dijkstra_path(&grid, start);
    proof {
        lemma_ascent_walkable(w, h, grid@, start);
        assert(plan_steps(
            map,
            actors@,
            start,
            goal,
            costs@,
            reach,
            seeds@,
            spread,
            reached,
            grid@,
            path@,
        ));
    }
    Some(MovePlan { range, route: grid, path })
}

/// The cells with a positive value among the first cells of a field
/// `width` wide, in the order of the rows.
pub open spec fn positive_cells(width: int, cells: Seq<i32>) -> Seq<Pos>
    decreases cells.len(),
{
    if cells.len() == 0 {
        Seq::empty()
    } else {
        let before = positive_cells(width, cells.drop_last());
        if cells.last() > 0 {
            before.push(pos_at(width, cells.len() - 1))
        } else {
            before
        }
    }
}

/// The cells of `grid` that hold a positive value, row by row: the cells
/// to mark when a range or a route is shown.
pub fn cells_in_range(grid: &Grid<i32>) -> (marked: Vec<Pos>)
    requires
        grid.wf(),
    ensures
        marked@ == positive_cells(grid.spec_width(), grid@),
{
    let ghost w = grid.spec_width();
    let ghost h = grid.spec_height();
    let cells = grid.iter();
    proof {
        assert forall|i: int| 0 <= i < cells@.len() implies #[trigger] cells@[i] == (
            pos_at(w, i).x,
            pos_at(w, i).y,
            grid@[i],
        ) by {
            lemma_cell_of_index(w, h, i);
            assert(grid.contains(i % w, i / w));
        }
    }
    let mut marked: Vec<Pos> = Vec::new();
    let mut i: usize = 0;
    assert(grid@.subrange(0, 0) =~= Seq::<i32>::empty());
    while i < cells.len()
        invariant
            i <= cells@.len(),
            cells@.len() == grid@.len(),
            forall|a: int|
                0 <= a < cells@.len() ==> #[trigger] cells@[a] == (
                    pos_at(w, a).x,
                    pos_at(w, a).y,
                    grid@[a],
                ),
            marked@ == positive_cells(w, grid@.subrange(0, i as int)),
        decreases cells@.len() - i,
    {
        proof {
            let longer = grid@.subrange(0, i + 1);
            assert(longer.drop_last() == grid@.subrange(0, i as int));
            assert(longer.last() == grid@[i as int]);
        }
        let (x, y, v) = cells[i];
        if v > 0 {
            marked.push(Pos::new(x, y));
        }
        i = i + 1;
    }
    assert(grid@.subrange(0, grid@.len() as int) == grid@);
    marked
}

} // verus!
