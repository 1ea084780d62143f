//! What a relaxation leaves where every cell costs the same to enter.
//!
//! With one cost for all cells, potential falls off with the number of
//! steps: a cell `d` steps from a cell that starts with value `v` is offered
//! `v` less `d` times the cost. Relaxation gives every cell the best offer
//! made to it, its own starting value among them.

use vstd::prelude::*;
use crate::field::{adjacent, below, inside, potential, seeded, Relaxation};
use crate::grid::{flat_index, lemma_cell_of_index, lemma_flat_index_bounds, pos_at};
use crate::pos::Pos;

verus! {

/// How far `a` and `b` lie apart.
pub open spec fn span(a: int, b: int) -> int {
    if a <= b {
        b - a
    } else {
        a - b
    }
}

/// The number of steps between `p` and `q`.
pub open spec fn distance(p: Pos, q: Pos) -> int {
    span(p.x as int, q.x as int) + span(p.y as int, q.y as int)
}

/// The neighbour of `p` that lies one step nearer to `q`, for `p` other
/// than `q`.
pub open spec fn toward(p: Pos, q: Pos) -> Pos {
    if p.x < q.x {
        Pos { x: (p.x + 1) as i32, y: p.y }
    } else if p.x > q.x {
        Pos { x: (p.x - 1) as i32, y: p.y }
    } else if p.y < q.y {
        Pos { x: p.x, y: (p.y + 1) as i32 }
    } else {
        Pos { x: p.x, y: (p.y - 1) as i32 }
    }
}

/// What the cell at place `i` offers to cell `p` when every step costs
/// `cost`: its starting value less the cost of the steps between them.
pub open spec fn offer(width: int, start: Seq<i32>, cost: int, p: Pos, i: int) -> int {
    start[i] - cost * distance(p, pos_at(width, i))
}

/// The best of what `p` starts with and what the cells at the first `n`
/// places offer to it.
pub open spec fn best_offer(width: int, start: Seq<i32>, cost: int, p: Pos, n: nat) -> int
    decreases n,
{
    if n == 0 {
        potential(width, start, p)
    } else {
        let before = best_offer(width, start, cost, p, (n - 1) as nat);
        let last = offer(width, start, cost, p, n - 1);
        if last > before {
            last
        } else {
            before
        }
    }
}

/// The field in which every cell holds the best offer made to it.
pub open spec fn spread(width: int, start: Seq<i32>, cost: int) -> Seq<i32> {
    Seq::new(
        start.len(),
        |i: int| best_offer(width, start, cost, pos_at(width, i), start.len()) as i32,
    )
}

/// A step to a neighbour changes the distance to any cell by one at most.
pub proof fn lemma_distance_step(p: Pos, q: Pos, x: Pos)
    requires
        adjacent(p, q),
    ensures
        distance(p, x) <= distance(q, x) + 1,
        distance(p, q) == 1,
        distance(p, p) == 0,
{
}

/// The step towards another cell of the grid stays in the grid and comes
/// one step nearer.
pub proof fn lemma_toward(width: int, height: int, p: Pos, q: Pos)
    requires
        inside(width, height, p),
        inside(width, height, q),
        p != q,
        width <= i32::MAX,
        height <= i32::MAX,
    ensures
        inside(width, height, toward(p, q)),
        adjacent(p, toward(p, q)),
        distance(toward(p, q), q) == distance(p, q) - 1,
        distance(p, q) > 0,
{
}

/// The best offer is one of the values it is taken from, and none of them
/// is higher.
pub proof fn lemma_best_offer(width: int, start: Seq<i32>, cost: int, p: Pos, n: nat)
    requires
        0 <= cost,
    ensures
        potential(width, start, p) <= best_offer(width, start, cost, p, n),
        forall|i: int| 0 <= i < n ==> #[trigger] offer(width, start, cost, p, i) <= best_offer(
            width,
            start,
            cost,
            p,
            n,
        ),
        best_offer(width, start, cost, p, n) == potential(width, start, p) || exists|i: int|
            0 <= i < n && best_offer(width, start, cost, p, n) == #[trigger] offer(
                width,
                start,
                cost,
                p,
                i,
            ),
        best_offer(width, start, cost, p, n) <= i32::MAX,
    decreases n,
{
    if n > 0 {
        lemma_best_offer(width, start, cost, p, (n - 1) as nat);
        let d = distance(p, pos_at(width, n - 1));
        assert(0 <= cost * d) by (nonlinear_arith)
            requires
                0 <= cost,
                0 <= d,
        ;
        let before = best_offer(width, start, cost, p, (n - 1) as nat);
        if offer(width, start, cost, p, n - 1) <= before && before != potential(width, start, p) {
            let i = choose|i: int|
                0 <= i < n - 1 && before == #[trigger] offer(width, start, cost, p, i);
            assert(offer(width, start, cost, p, i) == best_offer(width, start, cost, p, n));
        }
    }
}

impl Relaxation {
    /// Every cell costs `cost` to enter.
    pub open spec fn uniform(self, cost: int) -> bool {
        forall|i: int| 0 <= i < self.costs.len() ==> #[trigger] self.costs[i] == cost
    }

    /// Whatever is out of balance at the start lies at or next to a seed:
    /// every other cell starts settled.
    pub open spec fn seeds_cover_start(self) -> bool {
        forall|p: Pos|
            #![trigger self.settled(self.start, p)]
            self.has(p) && !self.near_seed(p) ==> self.settled(self.start, p)
    }

    /// What `spread` gives to cell `p`.
    proof fn lemma_spread_value(self, cost: int, p: Pos)
        requires
            self.wf(),
            self.has(p),
            0 <= cost,
        ensures
            self.value(spread(self.width, self.start, cost), p) == best_offer(
                self.width,
                self.start,
                cost,
                p,
                self.start.len(),
            ),
            pos_at(self.width, flat_index(self.width, p.x as int, p.y as int)) == p,
            0 <= flat_index(self.width, p.x as int, p.y as int) < self.start.len(),
    {
        lemma_flat_index_bounds(self.width, self.height, p.x as int, p.y as int);
        lemma_best_offer(self.width, self.start, cost, p, self.start.len());
    }

    /// In `spread` every cell is settled.
    proof fn lemma_spread_settled(self, cost: int, p: Pos, q: Pos)
        requires
            self.wf(),
            0 <= cost,
            self.uniform(cost),
            self.has(p),
            self.has(q),
            adjacent(p, q),
        ensures
            self.value(spread(self.width, self.start, cost), q) - self.cost(p) <= self.value(
                spread(self.width, self.start, cost),
                p,
            ),
    {
        let w = self.width;
        let n = self.start.len();
        lemma_flat_index_bounds(w, self.height, p.x as int, p.y as int);
        lemma_flat_index_bounds(w, self.height, q.x as int, q.y as int);
        assert(self.costs[flat_index(w, p.x as int, p.y as int)] == cost);
        self.lemma_spread_value(cost, p);
        self.lemma_spread_value(cost, q);
        lemma_best_offer(w, self.start, cost, p, n);
        lemma_best_offer(w, self.start, cost, q, n);
        let best_q = best_offer(w, self.start, cost, q, n);
        if best_q == potential(w, self.start, q) {
            let at = flat_index(w, q.x as int, q.y as int);
            lemma_distance_step(p, q, q);
            assert(offer(w, self.start, cost, p, at) == potential(w, self.start, q) - cost) by {
                assert(cost * 1 == cost) by (nonlinear_arith);
            }
        } else {
            let i = choose|i: int|
                0 <= i < n && best_q == #[trigger] offer(w, self.start, cost, q, i);
            let x = pos_at(w, i);
            lemma_distance_step(p, q, x);
            assert(cost * distance(p, x) <= cost * distance(q, x) + cost) by (nonlinear_arith)
                requires
                    0 <= cost,
                    distance(p, x) <= distance(q, x) + 1,
            ;
            assert(offer(w, self.start, cost, p, i) >= offer(w, self.start, cost, q, i) - cost);
        }
    }

    /// In a relaxed field every cell holds at least what any cell offers
    /// to it.
    proof fn lemma_relaxed_takes_offer(self, cost: int, other: Seq<i32>, p: Pos, i: int)
        requires
            self.wf(),
            0 <= cost,
            self.uniform(cost),
            self.seeds_cover_start(),
            self.relaxed(other),
            self.has(p),
            0 <= i < self.start.len(),
        ensures
            offer(self.width, self.start, cost, p, i) <= self.value(other, p),
        decreases distance(p, pos_at(self.width, i)),
    {
        let w = self.width;
        let x = pos_at(w, i);
        lemma_cell_of_index(w, self.height, i);
        lemma_flat_index_bounds(w, self.height, p.x as int, p.y as int);
        let at = flat_index(w, p.x as int, p.y as int);
        assert(self.start[at] <= other[at]);
        if p == x {
            assert(cost * 0 == 0) by (nonlinear_arith);
        } else if offer(w, self.start, cost, p, i) > self.value(other, p) {
            let d = distance(p, x);
            let n = toward(p, x);
            lemma_toward(w, self.height, p, x);
            self.lemma_relaxed_takes_offer(cost, other, n, i);
            assert(cost * (d - 1) == cost * d - cost) by (nonlinear_arith);
            // the neighbour towards `x` holds more than `p` can be refused
            assert(self.value(other, n) - cost > self.value(other, p));
            lemma_flat_index_bounds(w, self.height, n.x as int, n.y as int);
            let near = flat_index(w, n.x as int, n.y as int);
            assert(self.start[near] <= other[near]);
            assert(self.costs[at] == cost);
            if self.value(other, n) > self.value(self.start, n) {
                assert(self.has(n) && adjacent(p, n) && self.value(other, n) > self.value(
                    self.start,
                    n,
                ) && self.value(other, n) - self.cost(p) > self.value(self.start, p));
                assert(self.pulled(other, p));
            } else {
                // `p` is out of balance at the start, so it lies at a seed
                assert(self.value(self.start, n) - self.cost(p) > self.value(self.start, p));
                if !self.near_seed(p) {
                    assert(self.settled(self.start, p));
                    assert(adjacent(p, n));
                    assert(false);
                }
            }
            assert(self.awake(other, p));
            assert(self.settled(other, p));
            assert(adjacent(p, n));
            assert(false);
        }
    }

    /// Where every cell costs the same and the seeds cover what is out of
    /// balance at the start, relaxation gives every cell the best offer
    /// made to it, and leaves every cell settled.
    pub proof fn lemma_result_is_spread(self, cost: int)
        requires
            self.wf(),
            0 <= cost,
            self.uniform(cost),
            self.seeds_cover_start(),
        ensures
            self.result(spread(self.width, self.start, cost)),
            forall|p: Pos|
                self.has(p) ==> #[trigger] self.settled(spread(self.width, self.start, cost), p),
            forall|cells: Seq<i32>|
                #[trigger] self.result(cells) ==> cells == spread(self.width, self.start, cost),
    {
        let w = self.width;
        let n = self.start.len();
        let field = spread(w, self.start, cost);
        assert forall|i: int| 0 <= i < n implies self.start[i] <= #[trigger] field[i] by {
            lemma_cell_of_index(w, self.height, i);
            lemma_best_offer(w, self.start, cost, pos_at(w, i), n);
        }
        assert forall|p: Pos| self.has(p) implies #[trigger] self.settled(field, p) by {
            assert forall|q: Pos| #![trigger adjacent(p, q)] self.has(q) && adjacent(
                p,
                q,
            ) implies self.value(field, q) - self.cost(p) <= self.value(field, p) by {
                self.lemma_spread_settled(cost, p, q);
            }
        }
        assert(self.relaxed(field));
        assert forall|other: Seq<i32>| #[trigger] self.relaxed(other) implies below(
            field,
            other,
        ) by {
            assert forall|i: int| 0 <= i < n implies field[i] <= #[trigger] other[i] by {
                lemma_cell_of_index(w, self.height, i);
                let p = pos_at(w, i);
                lemma_best_offer(w, self.start, cost, p, n);
                assert(self.start[i] <= other[i]);
                let best = best_offer(w, self.start, cost, p, n);
                if best != potential(w, self.start, p) {
                    let j = choose|j: int|
                        0 <= j < n && best == #[trigger] offer(w, self.start, cost, p, j);
                    self.lemma_relaxed_takes_offer(cost, other, p, j);
                }
            }
        }
        assert forall|cells: Seq<i32>| #[trigger] self.result(cells) implies cells == field by {
            crate::field::lemma_result_unique(self, cells, field);
        }
    }
}

/// What is left of the value `top` after `steps` steps of cost `cost`
/// each, and nothing where it is used up.
pub open spec fn cone(top: int, cost: int, steps: int) -> int {
    if top - cost * steps > 0 {
        top - cost * steps
    } else {
        0
    }
}

/// In a field that holds `top` in cell `seed` and 0 elsewhere, the best
/// offer to a cell comes from the seed or is the cell's own 0.
proof fn lemma_best_offer_seeded(
    width: int,
    height: int,
    seed: Pos,
    top: i32,
    cost: int,
    p: Pos,
    n: nat,
)
    requires
        0 <= width <= i32::MAX,
        0 <= height <= i32::MAX,
        inside(width, height, seed),
        inside(width, height, p),
        0 <= top,
        0 <= cost,
        n <= height * width,
    ensures
        best_offer(
            width,
            seeded((height * width) as nat, flat_index(width, seed.x as int, seed.y as int), top),
            cost,
            p,
            n,
        ) == if n > flat_index(width, seed.x as int, seed.y as int) || p == seed {
            cone(top as int, cost, distance(p, seed))
        } else {
            0
        },
    decreases n,
{
    let at = flat_index(width, seed.x as int, seed.y as int);
    lemma_flat_index_bounds(width, height, seed.x as int, seed.y as int);
    lemma_flat_index_bounds(width, height, p.x as int, p.y as int);
    assert(cost * 0 == 0) by (nonlinear_arith);
    if p != seed {
        if flat_index(width, p.x as int, p.y as int) == at {
            crate::grid::lemma_flat_index_injective(
                width,
                p.x as int,
                p.y as int,
                seed.x as int,
                seed.y as int,
            );
        }
    }
    if n > 0 {
        lemma_best_offer_seeded(width, height, seed, top, cost, p, (n - 1) as nat);
        lemma_cell_of_index(width, height, n - 1);
        let x = pos_at(width, n - 1);
        assert(0 <= cost * distance(p, x)) by (nonlinear_arith)
            requires
                0 <= cost,
                0 <= distance(p, x),
        ;
        if n - 1 == at {
            assert(x == seed);
        }
    }
}

impl Relaxation {
    /// From one seed of value `top` in a field that is 0 elsewhere, with
    /// one cost for every cell, relaxation leaves in each cell what is left
    /// of `top` after the steps from the seed to the cell.
    pub proof fn lemma_result_from_one_seed(self, seed: Pos, top: i32, cost: int)
        requires
            self.wf(),
            0 <= cost,
            0 <= top,
            self.uniform(cost),
            self.has(seed),
            self.seeds.contains(seed),
            self.start == seeded(
                self.start.len(),
                flat_index(self.width, seed.x as int, seed.y as int),
                top,
            ),
        ensures
            forall|cells: Seq<i32>, p: Pos|
                self.result(cells) && self.has(p) ==> #[trigger] self.value(cells, p) == cone(
                    top as int,
                    cost,
                    distance(p, seed),
                ),
    {
        let w = self.width;
        let at = flat_index(w, seed.x as int, seed.y as int);
        lemma_flat_index_bounds(w, self.height, seed.x as int, seed.y as int);
        let i = choose|i: int| 0 <= i < self.seeds.len() && self.seeds[i] == seed;
        assert forall|p: Pos|
            #![trigger self.settled(self.start, p)]
            self.has(p) && !self.near_seed(p) implies self.settled(self.start, p) by {
            assert(self.seeds[i] == seed);
            assert(p != seed && !adjacent(seed, p));
            lemma_flat_index_bounds(w, self.height, p.x as int, p.y as int);
            assert forall|q: Pos| #![trigger adjacent(p, q)] self.has(q) && adjacent(
                p,
                q,
            ) implies self.value(self.start, q) - self.cost(p) <= self.value(self.start, p) by {
                lemma_flat_index_bounds(w, self.height, q.x as int, q.y as int);
                if flat_index(w, q.x as int, q.y as int) == at {
                    crate::grid::lemma_flat_index_injective(
                        w,
                        q.x as int,
                        q.y as int,
                        seed.x as int,
                        seed.y as int,
                    );
                }
                assert(0 <= self.costs[flat_index(w, p.x as int, p.y as int)]);
            }
        }
        self.lemma_result_is_spread(cost);
        assert forall|cells: Seq<i32>, p: Pos| self.result(cells) && self.has(p) implies #[trigger] self.value(
            cells,
            p,
        ) == cone(top as int, cost, distance(p, seed)) by {
            assert(cells == spread(w, self.start, cost));
            self.lemma_spread_value(cost, p);
            lemma_best_offer_seeded(w, self.height, seed, top, cost, p, self.start.len());
        }
    }
}

} // verus!
