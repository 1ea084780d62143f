//! Potential relaxation on a grid, and the ascent paths read off its result.
//!
//! Relaxation raises cells so that potential flows outward from seed cells
//! and drops by the cost of each cell it enters. A path then climbs from a
//! start cell to a local maximum.

use vstd::prelude::*;
use crate::ascent::{ascent, highest_of, uphill};
use crate::field::{
    adjacent, lemma_neighbors_of, neighbors_of, potential, step_to, touches, Relaxation,
};
use crate::grid::{lemma_cell_of_index, Grid};
use crate::pos::Pos;
use crate::worklist::{capped, headroom, lemma_headroom_nonnegative};

verus! {

/// The cells of `grid` next to `pos`: left, right, below, above, leaving out
/// those that fall off the grid.
pub fn get_neighbors<T>(pos: Pos, grid: &Grid<T>) -> (cells: Vec<Pos>)
    ensures
        cells@ == neighbors_of(grid.spec_width(), grid.spec_height(), pos),
{
    let mut cells: Vec<Pos> = Vec::new();
    let w = grid.width();
    let h = grid.height();
    let x = pos.x;
    let y = pos.y;
    let row = 0 <= y && y < h;
    let column = 0 <= x && x < w;
    if row && 0 < x && x <= w {
        cells.push(Pos::new(x - 1, y));
    }
    assert(cells@ == step_to(w as int, h as int, pos, -1, 0));
    if row && -1 <= x && x < i32::MAX && x + 1 < w {
        cells.push(Pos::new(x + 1, y));
    }
    assert(cells@ == step_to(w as int, h as int, pos, -1, 0) + step_to(
        w as int,
        h as int,
        pos,
        1,
        0,
    ));
    if column && -1 <= y && y < i32::MAX && y + 1 < h {
        cells.push(Pos::new(x, y + 1));
    }
    assert(cells@ == step_to(w as int, h as int, pos, -1, 0) + step_to(
        w as int,
        h as int,
        pos,
        1,
        0,
    ) + step_to(w as int, h as int, pos, 0, 1));
    if column && 0 < y && y <= h {
        cells.push(Pos::new(x, y - 1));
    }
    cells
}

/// The relaxation that starts from `grid` with the given seeds and costs.
pub open spec fn relaxation(grid: &Grid<i32>, seeds: Seq<Pos>, costs: &Grid<i32>) -> Relaxation {
    Relaxation {
        width: grid.spec_width(),
        height: grid.spec_height(),
        start: grid@,
        seeds,
        costs: costs@,
    }
}

/// Append `items` to `list`.
fn append(list: &mut Vec<Pos>, items: &Vec<Pos>)
    ensures
        final(list)@ == old(list)@ + items@,
{
    let mut i: usize = 0;
    while i < items.len()
        invariant
            i <= items.len(),
            list@ == old(list)@ + items@.subrange(0, i as int),
        decreases items.len() - i,
    {
        list.push(items[i]);
        i = i + 1;
    }
    assert(items@.subrange(0, items.len() as int) == items@);
}

/// The cells that wait when a relaxation begins: the neighbours of every
/// seed, then the seeds that lie in the grid.
fn first_cells(grid: &Grid<i32>, seed: &[Pos]) -> (cells: Vec<Pos>)
    requires
        grid.wf(),
    ensures
        forall|j: int|
            #![trigger cells@[j]]
            0 <= j < cells@.len() ==> grid.contains_pos(cells@[j]) && touches(seed@, cells@[j]),
        forall|i: int, p: Pos|
            #![trigger seed@[i], adjacent(seed@[i], p)]
            0 <= i < seed@.len() && grid.contains_pos(p) && adjacent(seed@[i], p)
                ==> cells@.contains(p),
        forall|i: int|
            #![trigger seed@[i]]
            0 <= i < seed@.len() && grid.contains_pos(seed@[i]) ==> cells@.contains(seed@[i]),
{
    let ghost w = grid.spec_width();
    let ghost h = grid.spec_height();
    let mut cells: Vec<Pos> = Vec::new();
    let mut i: usize = 0;
    while i < seed.len()
        invariant
            grid.wf(),
            w == grid.spec_width(),
            h == grid.spec_height(),
            i <= seed@.len(),
            forall|j: int|
                #![trigger cells@[j]]
                0 <= j < cells@.len() ==> grid.contains_pos(cells@[j]) && touches(seed@, cells@[j]),
            forall|a: int, p: Pos|
                #![trigger seed@[a], adjacent(seed@[a], p)]
                0 <= a < i && grid.contains_pos(p) && adjacent(seed@[a], p) ==> cells@.contains(p),
        decreases seed@.len() - i,
    {
        let around = get_neighbors(seed[i], grid);
        let ghost before = cells@;
        append(&mut cells, &around);
        proof {
            lemma_neighbors_of(w, h, seed@[i as int]);
            assert forall|j: int| #![trigger cells@[j]] 0 <= j < cells@.len() implies grid.contains_pos(
                cells@[j],
            ) && touches(seed@, cells@[j]) by {
                if j >= before.len() {
                    let q = around@[j - before.len()];
                    assert(cells@[j] == q);
                    assert(around@.contains(q));
                    assert(adjacent(seed@[i as int], q));
                    assert(touches(seed@, q));
                } else {
                    assert(cells@[j] == before[j]);
                }
            }
            assert forall|a: int, p: Pos|
                #![trigger seed@[a], adjacent(seed@[a], p)]
                0 <= a < i + 1 && grid.contains_pos(p) && adjacent(seed@[a], p) implies cells@.contains(
                p,
            ) by {
                if a < i {
                    assert(before.contains(p));
                    let j = choose|j: int| 0 <= j < before.len() && before[j] == p;
                    assert(cells@[j] == p);
                } else {
                    assert(around@.contains(p));
                    let j = choose|j: int| 0 <= j < around@.len() && around@[j] == p;
                    assert(cells@[before.len() + j] == p);
                }
            }
        }
        i = i + 1;
    }
    let mut i: usize = 0;
    while i < seed.len()
        invariant
            grid.wf(),
            i <= seed@.len(),
            forall|j: int|
                #![trigger cells@[j]]
                0 <= j < cells@.len() ==> grid.contains_pos(cells@[j]) && touches(seed@, cells@[j]),
            forall|a: int, p: Pos|
                #![trigger seed@[a], adjacent(seed@[a], p)]
                0 <= a < seed@.len() && grid.contains_pos(p) && adjacent(seed@[a], p)
                    ==> cells@.contains(p),
            forall|a: int|
                #![trigger seed@[a]]
                0 <= a < i && grid.contains_pos(seed@[a]) ==> cells@.contains(seed@[a]),
        decreases seed@.len() - i,
    {
        let s = seed[i];
        let ghost before = cells@;
        if grid.in_bounds(s.x, s.y) {
            cells.push(s);
            assert(cells@[before.len() as int] == s);
        }
        proof {
            assert forall|j: int| #![trigger cells@[j]] 0 <= j < cells@.len() implies grid.contains_pos(
                cells@[j],
            ) && touches(seed@, cells@[j]) by {
                if j >= before.len() {
                    assert(seed@[i as int] == cells@[j]);
                } else {
                    assert(cells@[j] == before[j]);
                }
            }
            assert forall|p: Pos| before.contains(p) implies cells@.contains(p) by {
                let j = choose|j: int| 0 <= j < before.len() && before[j] == p;
                assert(cells@[j] == p);
            }
            assert forall|a: int, p: Pos|
                #![trigger seed@[a], adjacent(seed@[a], p)]
                0 <= a < seed@.len() && grid.contains_pos(p) && adjacent(seed@[a], p) implies cells@.contains(
                p,
            ) by {
                assert(before.contains(p));
            }
            assert forall|a: int| #![trigger seed@[a]] 0 <= a < i + 1 && grid.contains_pos(
                seed@[a],
            ) implies cells@.contains(seed@[a]) by {
                if a < i {
                    assert(before.contains(seed@[a]));
                }
            }
        }
        i = i + 1;
    }
    cells
}

/// The highest value among the cells `around`, which all lie in `grid`.
fn highest(grid: &Grid<i32>, around: &Vec<Pos>) -> (top: i32)
    requires
        grid.wf(),
        around@.len() > 0,
        forall|j: int| 0 <= j < around@.len() ==> grid.contains_pos(#[trigger] around@[j]),
    ensures
        exists|j: int| 0 <= j < around@.len() && grid.at_pos(#[trigger] around@[j]) == top,
        forall|j: int| 0 <= j < around@.len() ==> grid.at_pos(#[trigger] around@[j]) <= top,
{
    let first = around[0];
    let mut top: i32 = *grid.get(first.x, first.y);
    let mut j: usize = 1;
    while j < around.len()
        invariant
            grid.wf(),
            1 <= j <= around@.len(),
            forall|a: int| 0 <= a < around@.len() ==> grid.contains_pos(#[trigger] around@[a]),
            exists|a: int| 0 <= a < j && grid.at_pos(#[trigger] around@[a]) == top,
            forall|a: int| 0 <= a < j ==> grid.at_pos(#[trigger] around@[a]) <= top,
        decreases around@.len() - j,
    {
        let q = around[j];
        let v: i32 = *grid.get(q.x, q.y);
        if v > top {
            top = v;
        }
        j = j + 1;
    }
    top
}

/// List in `next` the cells `around` to which the value `offer` of their
/// neighbour gives more than they hold, once their own cost is taken off.
fn wake(grid: &Grid<i32>, costs: &Grid<i32>, around: &Vec<Pos>, offer: i32, next: &mut Vec<Pos>) -> (added:
    Ghost<Seq<Pos>>)
    requires
        grid.wf(),
        costs.wf(),
        costs.same_shape(grid),
        forall|j: int| 0 <= j < around@.len() ==> grid.contains_pos(#[trigger] around@[j]),
    ensures
        final(next)@ == old(next)@ + added@,
        forall|j: int|
            #![trigger around@[j]]
            0 <= j < around@.len() && grid.at_pos(around@[j]) < offer - costs.at_pos(around@[j])
                ==> added@.contains(around@[j]),
        forall|j: int|
            #![trigger added@[j]]
            0 <= j < added@.len() ==> around@.contains(added@[j]) && grid.at_pos(added@[j]) < offer
                - costs.at_pos(added@[j]),
{
    let ghost mut added: Seq<Pos> = Seq::empty();
    let mut j: usize = 0;
    while j < around.len()
        invariant
            grid.wf(),
            costs.wf(),
            costs.same_shape(grid),
            j <= around@.len(),
            forall|a: int| 0 <= a < around@.len() ==> grid.contains_pos(#[trigger] around@[a]),
            next@ == old(next)@ + added,
            forall|a: int|
                #![trigger around@[a]]
                0 <= a < j && grid.at_pos(around@[a]) < offer - costs.at_pos(around@[a])
                    ==> added.contains(around@[a]),
            forall|a: int|
                #![trigger added[a]]
                0 <= a < added.len() ==> around@.contains(added[a]) && grid.at_pos(added[a]) < offer
                    - costs.at_pos(added[a]),
        decreases around@.len() - j,
    {
        let q = around[j];
        let held: i32 = *grid.get(q.x, q.y);
        let cost: i32 = *costs.get(q.x, q.y);
        let ghost before = added;
        if (held as i64) < (offer as i64) - (cost as i64) {
            next.push(q);
            proof {
                added = added.push(q);
                assert(added[before.len() as int] == q);
            }
        }
        proof {
            assert forall|p: Pos| before.contains(p) implies added.contains(p) by {
                let a = choose|a: int| 0 <= a < before.len() && before[a] == p;
                assert(added[a] == p);
            }
            assert forall|a: int|
                #![trigger around@[a]]
                0 <= a < j + 1 && grid.at_pos(around@[a]) < offer - costs.at_pos(
                    around@[a],
                ) implies added.contains(around@[a]) by {
                if a < j {
                    assert(before.contains(around@[a]));
                }
            }
        }
        j = j + 1;
    }
    Ghost(added)
}

/// Relax `grid` from the cells `seed` under the costs `costs`, a grid of the
/// same shape that holds the cost of entering each cell.
///
/// The cells at and around the seeds are looked at first. A cell that is
/// looked at is raised to the highest value among its neighbours less its
/// own cost, if that is more than it holds, and the neighbours that this new
/// value beats are looked at in turn. The run ends when no cell waits. What
/// it leaves in `grid` is the lowest field that is nowhere below the old one
/// and in which every awake cell is settled.
pub fn relax(grid: &mut Grid<i32>, seed: &[Pos], costs: &Grid<i32>)
    requires
        old(grid).wf(),
        costs.wf(),
        costs.same_shape(old(grid)),
        forall|i: int| 0 <= i < costs@.len() ==> 0 <= #[trigger] costs@[i],
    ensures
        final(grid).wf(),
        final(grid).same_shape(old(grid)),
        relaxation(old(grid), seed@, costs).result(final(grid)@),
        capped(old(grid)@, final(grid)@),
{
    let ghost r = relaxation(grid, seed@, costs);
    let mut next: Vec<Pos> = first_cells(grid, seed);
    proof {
        assert forall|j: int| #![trigger next@[j]] 0 <= j < next@.len() implies r.has(next@[j])
            && r.near_seed(next@[j]) by {}
        assert forall|p: Pos| #![trigger r.near_seed(p)] r.has(p) && r.near_seed(p) implies next@.contains(
            p,
        ) by {
            let i = choose|i: int|
                #![trigger r.seeds[i]]
                0 <= i < r.seeds.len() && (r.seeds[i] == p || adjacent(r.seeds[i], p));
            if seed@[i] != p {
                assert(adjacent(seed@[i], p));
            }
        }
        r.lemma_working_begins(next@);
        r.lemma_working_relist(r.start, next@, 0, Seq::empty(), Seq::empty(), 0, next@);
    }
    while next.len() > 0
        invariant
            grid.wf(),
            costs.wf(),
            costs.same_shape(grid),
            grid.same_shape(old(grid)),
            r == relaxation(old(grid), seed@, costs),
            r.wf(),
            r.working(grid@, Seq::empty(), 0, next@),
        decreases headroom(grid@), next@.len(),
    {
        let ghost before_pass = headroom(grid@);
        let ghost listed = next@;
        let buffer = next;
        next = Vec::new();
        proof {
            r.lemma_working_relist(grid@, Seq::empty(), 0, listed, buffer@, 0, next@);
        }
        let mut k: usize = 0;
        while k < buffer.len()
            invariant
                grid.wf(),
                costs.wf(),
                costs.same_shape(grid),
                grid.same_shape(old(grid)),
                r == relaxation(old(grid), seed@, costs),
                r.wf(),
                k <= buffer@.len(),
                r.working(grid@, buffer@, k as int, next@),
                headroom(grid@) <= before_pass,
                headroom(grid@) == before_pass ==> next@.len() == 0,
            decreases buffer@.len() - k,
        {
            let pos = buffer[k];
            let ghost cells = grid@;
            let ghost waiting_next = next@;
            assert(r.has(buffer@[k as int]));
            let around = get_neighbors(pos, grid);
            proof {
                lemma_neighbors_of(r.width, r.height, pos);
                assert forall|j: int| 0 <= j < around@.len() implies grid.contains_pos(
                    #[trigger] around@[j],
                ) by {
                    assert(around@.contains(around@[j]));
                }
            }
            let ghost mut raised = false;
            if around.len() > 0 {
                let top: i32 = highest(grid, &around);
                let held: i32 = *grid.get(pos.x, pos.y);
                let cost: i32 = *costs.get(pos.x, pos.y);
                proof {
                    r.lemma_place(pos);
                    assert(costs@[r.place(pos)] >= 0);
                }
                if (top as i64) > (held as i64) + (cost as i64) {
                    let offer: i32 = top - cost;
                    grid.set(pos, offer);
                    let added = wake(grid, costs, &around, offer, &mut next);
                    proof {
                        raised = true;
                        let b = choose|b: int|
                            0 <= b < around@.len() && r.value(cells, #[trigger] around@[b]) == top;
                        let best = around@[b];
                        assert(around@.contains(best));
                        assert forall|q: Pos| #![trigger adjacent(pos, q)] r.has(q) && adjacent(
                            pos,
                            q,
                        ) implies r.value(cells, q) - r.cost(pos) <= offer by {
                            assert(around@.contains(q));
                            let j = choose|j: int| 0 <= j < around@.len() && around@[j] == q;
                            assert(r.value(cells, around@[j]) <= top);
                        }
                        assert forall|q: Pos| #![trigger adjacent(pos, q)] r.has(q) && adjacent(
                            pos,
                            q,
                        ) && r.value(cells, q) < offer - r.cost(q) implies added@.contains(q) by {
                            assert(around@.contains(q));
                            let j = choose|j: int| 0 <= j < around@.len() && around@[j] == q;
                            r.lemma_value_update(cells, pos, offer, around@[j]);
                        }
                        assert forall|j: int| #![trigger added@[j]] 0 <= j < added@.len() implies r.has(
                            added@[j],
                        ) && adjacent(pos, added@[j]) && r.value(cells, added@[j]) < offer - r.cost(
                            added@[j],
                        ) by {
                            assert(around@.contains(added@[j]));
                            r.lemma_value_update(cells, pos, offer, added@[j]);
                        }
                        assert(r.raise(cells, pos, offer, best, added@));
                        r.lemma_working_raises(
                            cells,
                            buffer@,
                            k as int,
                            waiting_next,
                            pos,
                            offer,
                            best,
                            added@,
                        );
                    }
                }
            }
            proof {
                if !raised {
                    assert forall|q: Pos| #![trigger adjacent(pos, q)] r.has(q) && adjacent(
                        pos,
                        q,
                    ) implies r.value(cells, q) - r.cost(pos) <= r.value(cells, pos) by {
                        assert(around@.contains(q));
                        let j = choose|j: int| 0 <= j < around@.len() && around@[j] == q;
                        assert(grid.at_pos(around@[j]) == r.value(cells, q));
                    }
                    assert(r.settled(cells, pos));
                    r.lemma_working_skips(cells, buffer@, k as int, waiting_next);
                }
            }
            k = k + 1;
        }
        proof {
            r.lemma_working_relist(
                grid@,
                buffer@,
                buffer@.len() as int,
                next@,
                Seq::empty(),
                0,
                next@,
            );
            lemma_headroom_nonnegative(grid@);
        }
    }
    proof {
        r.lemma_working_ends(grid@, Seq::empty());
    }
}

/// `costs` holds, for every cell of `grid`, a cost that `cost` returns for it.
pub open spec fn charged<F: Fn(Pos) -> i32>(grid: &Grid<i32>, cost: F, costs: &Grid<i32>) -> bool {
    &&& costs.wf()
    &&& costs.same_shape(grid)
    &&& forall|p: Pos| grid.contains_pos(p) ==> call_ensures(cost, (p,), #[trigger] costs.at_pos(p))
}

/// Relax `grid` from the cells `seed`, where `cost` gives the cost of
/// entering a cell and is never negative.
///
/// `cost` is asked once for every cell of the grid; with the costs it
/// returned, `grid` is relaxed as `relax` does it.
pub fn dijkstra<F: Fn(Pos) -> i32>(grid: &mut Grid<i32>, seed: &[Pos], cost: F)
    requires
        old(grid).wf(),
        forall|p: Pos| old(grid).contains_pos(p) ==> #[trigger] call_requires(cost, (p,)),
        forall|p: Pos, c: i32|
            old(grid).contains_pos(p) && #[trigger] call_ensures(cost, (p,), c) ==> c >= 0,
    ensures
        final(grid).wf(),
        final(grid).same_shape(old(grid)),
        exists|costs: Grid<i32>|
            #![trigger charged(old(grid), cost, &costs)]
            charged(old(grid), cost, &costs) && relaxation(old(grid), seed@, &costs).result(
                final(grid)@,
            ),
        capped(old(grid)@, final(grid)@),
{
    let ghost start = *grid;
    proof {
        assert(grid.spec_height() * grid.spec_width() == grid.spec_width() * grid.spec_height())
            by (nonlinear_arith);
    }
    let costs = Grid::from_fn(grid.width(), grid.height(), cost);
    proof {
        assert forall|i: int| 0 <= i < costs@.len() implies 0 <= #[trigger] costs@[i] by {
            let x = i % grid.spec_width();
            let y = i / grid.spec_width();
            lemma_cell_of_index(grid.spec_width(), grid.spec_height(), i);
            let p = Pos { x: x as i32, y: y as i32 };
            assert(costs.contains_pos(p));
            assert(call_ensures(cost, (p,), costs.at_pos(p)));
        }
    }
    relax(grid, seed, &costs);
    proof {
        assert(charged(&start, cost, &costs));
    }
}

/// The cell of `around` with the highest value, and that value; of several
/// cells with the highest value, the last.
fn highest_cell(grid: &Grid<i32>, around: &Vec<Pos>) -> (top: (Pos, i32))
    requires
        grid.wf(),
        around@.len() > 0,
        forall|j: int| 0 <= j < around@.len() ==> grid.contains_pos(#[trigger] around@[j]),
    ensures
        top.0 == highest_of(grid.spec_width(), grid@, around@),
        top.1 == potential(grid.spec_width(), grid@, top.0),
{
    let ghost w = grid.spec_width();
    let first = around[0];
    let mut cell = first;
    let mut value: i32 = *grid.get(first.x, first.y);
    let mut j: usize = 1;
    assert(around@.subrange(0, 1).len() == 1);
    while j < around.len()
        invariant
            grid.wf(),
            w == grid.spec_width(),
            1 <= j <= around@.len(),
            forall|a: int| 0 <= a < around@.len() ==> grid.contains_pos(#[trigger] around@[a]),
            cell == highest_of(w, grid@, around@.subrange(0, j as int)),
            value == potential(w, grid@, cell),
        decreases around@.len() - j,
    {
        let q = around[j];
        let v: i32 = *grid.get(q.x, q.y);
        proof {
            let longer = around@.subrange(0, j + 1);
            assert(longer.drop_last() == around@.subrange(0, j as int));
            assert(longer.last() == q);
        }
        if v >= value {
            cell = q;
            value = v;
        }
        j = j + 1;
    }
    assert(around@.subrange(0, around@.len() as int) == around@);
    (cell, value)
}

/// The path that climbs from `start` to a local maximum of `grid`.
///
/// The path is empty where `start` lies off the grid or holds no positive
/// value. Otherwise it begins with `start` and goes on, from each cell, to
/// the neighbour with the highest value for as long as that value is higher
/// than the cell's own. Of several neighbours with the highest value, the
/// one that comes last in the order left, right, below, above is taken.
pub fn dijkstra_path(grid: &Grid<i32>, start: Pos) -> (path: Vec<Pos>)
    requires
        grid.wf(),
    ensures
        path@ == if grid.contains_pos(start) && grid.at_pos(start) > 0 {
            ascent(grid.spec_width(), grid.spec_height(), grid@, start)
        } else {
            Seq::empty()
        },
{
    let mut path: Vec<Pos> = Vec::new();
    if !grid.in_bounds(start.x, start.y) {
        return path;
    }
    let mut pos = start;
    let mut v: i32 = *grid.get(pos.x, pos.y);
    if v <= 0 {
        return path;
    }
    path.push(start);
    let ghost w = grid.spec_width();
    let ghost h = grid.spec_height();
    let ghost whole = ascent(w, h, grid@, start);
    assert(path@.drop_last() + ascent(w, h, grid@, pos) == whole);
    loop
        invariant
            grid.wf(),
            w == grid.spec_width(),
            h == grid.spec_height(),
            grid.contains_pos(pos),
            v == potential(w, grid@, pos),
            path@.len() > 0,
            path@.last() == pos,
            path@.drop_last() + ascent(w, h, grid@, pos) == whole,
        ensures
            path@ == whole,
        decreases i32::MAX - v,
    {
        let around = get_neighbors(pos, grid);
        proof {
            lemma_neighbors_of(w, h, pos);
            assert forall|j: int| 0 <= j < around@.len() implies grid.contains_pos(
                #[trigger] around@[j],
            ) by {
                assert(around@.contains(around@[j]));
            }
        }
        if around.len() == 0 {
            assert(uphill(w, h, grid@, pos) is None);
            assert(path@.drop_last() + seq![pos] == path@);
            break;
        }
        let (higher, value) = highest_cell(grid, &around);
        if value > v {
            proof {
                assert(uphill(w, h, grid@, pos) == Some(higher));
                crate::ascent::lemma_highest_of(w, grid@, around@);
                assert(around@.contains(higher));
                let ghost before = path@;
                assert(before.push(higher).drop_last() == before);
                assert(before == before.drop_last() + seq![pos]);
                assert(before + ascent(w, h, grid@, higher) == before.drop_last() + (seq![pos]
                    + ascent(w, h, grid@, higher)));
            }
            path.push(higher);
            pos = higher;
            v = value;
        } else {
            assert(uphill(w, h, grid@, pos) is None);
            assert(path@.drop_last() + seq![pos] == path@);
            break;
        }
    }
    path
}

} // verus!
