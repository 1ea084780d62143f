//! Potential fields on a grid: which cells touch, what it means for a field
//! to be relaxed, and why the relaxation of a field is unique.
//!
//! A field is stored row by row, as a grid stores its cells. A cell is
//! settled when none of its neighbours holds more than the cell's own value
//! plus the cost of entering the cell. Relaxation starts at the seeds and
//! spreads only as far as values rise, so it settles the cells that it
//! wakes and leaves the others as they were. Its result is the lowest field
//! that is nowhere below the start and settled in every awake cell.

use vstd::prelude::*;
use crate::grid::flat_index;
use crate::pos::Pos;

verus! {

/// `p` names a cell of a grid of the given shape.
pub open spec fn inside(width: int, height: int, p: Pos) -> bool {
    0 <= p.x < width && 0 <= p.y < height
}

/// The value that a field `width` wide, stored row by row, gives to cell `p`.
pub open spec fn potential(width: int, cells: Seq<i32>, p: Pos) -> int {
    cells[flat_index(width, p.x as int, p.y as int)] as int
}

/// `q` is one step left, right, below or above `p`.
pub open spec fn adjacent(p: Pos, q: Pos) -> bool {
    ||| (q.y == p.y && (q.x == p.x - 1 || q.x == p.x + 1))
    ||| (q.x == p.x && (q.y == p.y - 1 || q.y == p.y + 1))
}

/// The one cell at offset `(dx, dy)` from `p`, if the grid has it.
pub open spec fn step_to(width: int, height: int, p: Pos, dx: int, dy: int) -> Seq<Pos> {
    if 0 <= p.x + dx < width && 0 <= p.y + dy < height {
        seq![Pos { x: (p.x + dx) as i32, y: (p.y + dy) as i32 }]
    } else {
        Seq::empty()
    }
}

/// The cells of the grid next to `p`, in the fixed order left, right, below
/// (`y + 1`), above (`y - 1`).
pub open spec fn neighbors_of(width: int, height: int, p: Pos) -> Seq<Pos> {
    step_to(width, height, p, -1, 0) + step_to(width, height, p, 1, 0) + step_to(
        width,
        height,
        p,
        0,
        1,
    ) + step_to(width, height, p, 0, -1)
}

/// The neighbour list holds exactly the adjacent cells of the grid, each once.
pub proof fn lemma_neighbors_of(width: int, height: int, p: Pos)
    requires
        width <= i32::MAX,
        height <= i32::MAX,
    ensures
        neighbors_of(width, height, p).len() <= 4,
        neighbors_of(width, height, p).no_duplicates(),
        forall|q: Pos|
            #![trigger neighbors_of(width, height, p).contains(q)]
            #![trigger adjacent(p, q)]
            neighbors_of(width, height, p).contains(q) <==> inside(width, height, q) && adjacent(
                p,
                q,
            ),
{
    let l = step_to(width, height, p, -1, 0);
    let r = step_to(width, height, p, 1, 0);
    let d = step_to(width, height, p, 0, 1);
    let u = step_to(width, height, p, 0, -1);
    let all = neighbors_of(width, height, p);
    assert(all == l + r + d + u);
    assert forall|q: Pos|
        #![trigger all.contains(q)]
        #![trigger adjacent(p, q)]
        all.contains(q) <==> inside(width, height, q) && adjacent(p, q) by {
        if all.contains(q) {
            let i = choose|i: int| 0 <= i < all.len() && all[i] == q;
            assert(inside(width, height, q) && adjacent(p, q));
        }
        if inside(width, height, q) && adjacent(p, q) {
            if q.y == p.y && q.x == p.x - 1 {
                assert(l.len() == 1 && l[0] == q);
                assert(all[0] == q);
            } else if q.y == p.y && q.x == p.x + 1 {
                assert(r.len() == 1 && r[0] == q);
                assert(all[l.len() as int] == q);
            } else if q.x == p.x && q.y == p.y + 1 {
                assert(d.len() == 1 && d[0] == q);
                assert(all[(l.len() + r.len()) as int] == q);
            } else {
                assert(u.len() == 1 && u[0] == q);
                assert(all[(l.len() + r.len() + d.len()) as int] == q);
            }
        }
    }
}

/// The field of `len` cells that holds `value` at place `at` and 0 elsewhere.
pub open spec fn seeded(len: nat, at: int, value: i32) -> Seq<i32> {
    Seq::new(
        len,
        |i: int|
            if i == at {
                value
            } else {
                0
            },
    )
}

/// `p` is one of `seeds` or lies next to one.
pub open spec fn touches(seeds: Seq<Pos>, p: Pos) -> bool {
    exists|i: int| #![trigger seeds[i]] 0 <= i < seeds.len() && (seeds[i] == p || adjacent(seeds[i], p))
}

/// What a relaxation starts from: the shape of the grid, the potential of
/// every cell before the run, the seed cells and the cost of entering each
/// cell. `start` and `costs` are stored row by row.
pub struct Relaxation {
    pub width: int,
    pub height: int,
    pub start: Seq<i32>,
    pub seeds: Seq<Pos>,
    pub costs: Seq<i32>,
}

impl Relaxation {
    /// The sequences fit the shape and no cost is negative.
    pub open spec fn wf(self) -> bool {
        &&& 0 <= self.width <= i32::MAX
        &&& 0 <= self.height <= i32::MAX
        &&& self.start.len() == self.height * self.width
        &&& self.costs.len() == self.height * self.width
        &&& forall|i: int| 0 <= i < self.costs.len() ==> 0 <= #[trigger] self.costs[i]
    }

    /// `p` names a cell of the grid.
    pub open spec fn has(self, p: Pos) -> bool {
        inside(self.width, self.height, p)
    }

    /// The value that a field stored row by row gives to cell `p`.
    pub open spec fn value(self, cells: Seq<i32>, p: Pos) -> int {
        potential(self.width, cells, p)
    }

    /// The cost of entering cell `p`.
    pub open spec fn cost(self, p: Pos) -> int {
        self.value(self.costs, p)
    }

    /// `p` is a seed or lies next to one.
    pub open spec fn near_seed(self, p: Pos) -> bool {
        touches(self.seeds, p)
    }

    /// Some neighbour of `p` was raised above its starting value and now
    /// offers `p` more than `p` started with.
    pub open spec fn pulled(self, cells: Seq<i32>, p: Pos) -> bool {
        exists|q: Pos|
            #![trigger adjacent(p, q)]
            self.has(q) && adjacent(p, q) && self.value(cells, q) > self.value(self.start, q)
                && self.value(cells, q) - self.cost(p) > self.value(self.start, p)
    }

    /// The cells that relaxation has to look at: those at and around the
    /// seeds, and those that a raised neighbour pulls above their start.
    /// A cell that is not awake keeps its starting value, also where the
    /// starting values around it offer more: no run ever looks at it.
    pub open spec fn awake(self, cells: Seq<i32>, p: Pos) -> bool {
        self.near_seed(p) || self.pulled(cells, p)
    }

    /// No neighbour of `p` offers more than `p` holds: for every neighbour
    /// `q`, the value of `q` less the cost of `p` is at most the value of `p`.
    pub open spec fn settled(self, cells: Seq<i32>, p: Pos) -> bool {
        forall|q: Pos|
            #![trigger adjacent(p, q)]
            self.has(q) && adjacent(p, q) ==> self.value(cells, q) - self.cost(p) <= self.value(
                cells,
                p,
            )
    }

    /// `cells` is a field that relaxation could stop at: no cell lies below
    /// its start and every awake cell is settled.
    pub open spec fn relaxed(self, cells: Seq<i32>) -> bool {
        &&& cells.len() == self.start.len()
        &&& forall|i: int| 0 <= i < cells.len() ==> self.start[i] <= #[trigger] cells[i]
        &&& forall|p: Pos|
            #![trigger self.settled(cells, p)]
            self.has(p) && self.awake(cells, p) ==> self.settled(cells, p)
    }

    /// `cells` is the result of the relaxation: the lowest of all relaxed
    /// fields, cell by cell.
    pub open spec fn result(self, cells: Seq<i32>) -> bool {
        &&& self.relaxed(cells)
        &&& forall|other: Seq<i32>| #[trigger] self.relaxed(other) ==> below(cells, other)
    }
}

/// `a` is nowhere above `b`.
pub open spec fn below(a: Seq<i32>, b: Seq<i32>) -> bool {
    &&& a.len() == b.len()
    &&& forall|i: int| 0 <= i < a.len() ==> a[i] <= #[trigger] b[i]
}

/// A relaxation has one result only.
pub proof fn lemma_result_unique(r: Relaxation, a: Seq<i32>, b: Seq<i32>)
    requires
        r.result(a),
        r.result(b),
    ensures
        a == b,
{
    assert(below(a, b));
    assert(below(b, a));
    assert(a =~= b);
}

/// In the result of a relaxation, a cell that is not awake holds what it
/// started with.
pub proof fn lemma_result_keeps_sleepers(r: Relaxation, cells: Seq<i32>, p: Pos)
    requires
        r.wf(),
        r.result(cells),
        r.has(p),
        !r.awake(cells, p),
    ensures
        r.value(cells, p) == r.value(r.start, p),
{
    r.lemma_place(p);
    let at = r.place(p);
    let lowered = cells.update(at, r.start[at]);
    assert(below(lowered, cells));
    assert forall|q: Pos|
        #![trigger r.settled(lowered, q)]
        r.has(q) && r.awake(lowered, q) implies r.settled(lowered, q) by {
        r.lemma_awake_monotone(lowered, cells, q);
        assert(r.settled(cells, q));
        assert forall|x: Pos| #![trigger adjacent(q, x)] r.has(x) && adjacent(
            q,
            x,
        ) implies r.value(lowered, x) - r.cost(q) <= r.value(lowered, q) by {
            r.lemma_value_update(cells, p, r.start[at], x);
            r.lemma_value_update(cells, p, r.start[at], q);
            r.lemma_place(x);
        }
    }
    assert(r.relaxed(lowered));
    assert(below(cells, lowered));
}

} // verus!
