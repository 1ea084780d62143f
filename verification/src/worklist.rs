//! The invariant that a relaxation run keeps while cells wait to be looked
//! at, and the steps that preserve it.
//!
//! A run holds the current field, a buffer of cells of which those from
//! position `k` on still wait, and a list of cells for the next pass.

use vstd::prelude::*;
use crate::field::{adjacent, below, Relaxation};
use crate::grid::{flat_index, lemma_flat_index_bounds, lemma_flat_index_injective};
use crate::pos::Pos;

verus! {

/// `p` still waits: in the buffer from position `k` on, or in the next list.
pub open spec fn waiting(buffer: Seq<Pos>, k: int, next: Seq<Pos>, p: Pos) -> bool {
    ||| exists|j: int| #![trigger buffer[j]] k <= j < buffer.len() && buffer[j] == p
    ||| exists|j: int| #![trigger next[j]] 0 <= j < next.len() && next[j] == p
}

/// Every value of `cells` is at most `m`.
pub open spec fn at_most(cells: Seq<i32>, m: int) -> bool {
    forall|i: int| 0 <= i < cells.len() ==> #[trigger] cells[i] <= m
}

/// Whatever bounds `start` from above also bounds `cells`.
pub open spec fn capped(start: Seq<i32>, cells: Seq<i32>) -> bool {
    forall|m: int| #[trigger] at_most(start, m) ==> at_most(cells, m)
}

/// How far the values of `cells` are from the largest value they can hold,
/// summed over the cells.
pub open spec fn headroom(cells: Seq<i32>) -> int
    decreases cells.len(),
{
    if cells.len() == 0 {
        0
    } else {
        headroom(cells.drop_last()) + (i32::MAX - cells.last())
    }
}

pub(crate) proof fn lemma_headroom_nonnegative(cells: Seq<i32>)
    ensures
        headroom(cells) >= 0,
    decreases cells.len(),
{
    if cells.len() > 0 {
        lemma_headroom_nonnegative(cells.drop_last());
    }
}

/// Raising one value lowers the headroom by as much.
pub(crate) proof fn lemma_headroom_update(cells: Seq<i32>, i: int, v: i32)
    requires
        0 <= i < cells.len(),
    ensures
        headroom(cells.update(i, v)) == headroom(cells) - (v - cells[i]),
    decreases cells.len(),
{
    let raised = cells.update(i, v);
    if i == cells.len() - 1 {
        assert(raised.drop_last() =~= cells.drop_last());
    } else {
        assert(raised.drop_last() =~= cells.drop_last().update(i, v));
        lemma_headroom_update(cells.drop_last(), i, v);
    }
}

impl Relaxation {
    /// No cell lies below its start.
    pub open spec fn keeps_start(self, cells: Seq<i32>) -> bool {
        &&& cells.len() == self.start.len()
        &&& forall|i: int| 0 <= i < cells.len() ==> self.start[i] <= #[trigger] cells[i]
    }

    /// No relaxed field lies below `cells` anywhere.
    pub open spec fn under_all(self, cells: Seq<i32>) -> bool {
        forall|other: Seq<i32>| #[trigger] self.relaxed(other) ==> below(cells, other)
    }

    /// Every awake cell is settled or still waits.
    pub open spec fn watched(self, cells: Seq<i32>, buffer: Seq<Pos>, k: int, next: Seq<Pos>) -> bool {
        forall|p: Pos|
            #![trigger self.settled(cells, p)]
            self.has(p) && self.awake(cells, p) ==> self.settled(cells, p) || waiting(
                buffer,
                k,
                next,
                p,
            )
    }

    /// Every waiting cell lies in the grid and is awake.
    pub open spec fn queued(self, cells: Seq<i32>, buffer: Seq<Pos>, k: int, next: Seq<Pos>) -> bool {
        &&& 0 <= k <= buffer.len()
        &&& forall|j: int|
            #![trigger buffer[j]]
            k <= j < buffer.len() ==> self.has(buffer[j]) && self.awake(cells, buffer[j])
        &&& forall|j: int|
            #![trigger next[j]]
            0 <= j < next.len() ==> self.has(next[j]) && self.awake(cells, next[j])
    }

    /// Every cell above its start is awake.
    pub open spec fn raised_awake(self, cells: Seq<i32>) -> bool {
        forall|p: Pos|
            #![trigger self.awake(cells, p)]
            self.has(p) && self.value(cells, p) > self.value(self.start, p) ==> self.awake(cells, p)
    }

    /// What holds between two looks at a cell.
    pub open spec fn working(self, cells: Seq<i32>, buffer: Seq<Pos>, k: int, next: Seq<Pos>) -> bool {
        &&& self.keeps_start(cells)
        &&& self.under_all(cells)
        &&& self.watched(cells, buffer, k, next)
        &&& self.queued(cells, buffer, k, next)
        &&& self.raised_awake(cells)
        &&& capped(self.start, cells)
    }

    /// The place of a cell of the grid in a field stored row by row.
    pub open spec fn place(self, p: Pos) -> int {
        flat_index(self.width, p.x as int, p.y as int)
    }

    pub(crate) proof fn lemma_place(self, p: Pos)
        requires
            self.wf(),
            self.has(p),
        ensures
            0 <= self.place(p) < self.start.len(),
    {
        lemma_flat_index_bounds(self.width, self.height, p.x as int, p.y as int);
    }

    /// Writing one cell changes the value of that cell only.
    pub(crate) proof fn lemma_value_update(self, cells: Seq<i32>, p: Pos, v: i32, q: Pos)
        requires
            self.wf(),
            self.has(p),
            self.has(q),
            cells.len() == self.start.len(),
        ensures
            self.value(cells.update(self.place(p), v), q) == if q == p {
                v as int
            } else {
                self.value(cells, q)
            },
    {
        self.lemma_place(p);
        self.lemma_place(q);
        if self.place(p) == self.place(q) {
            lemma_flat_index_injective(
                self.width,
                p.x as int,
                p.y as int,
                q.x as int,
                q.y as int,
            );
        }
    }

    /// A cell that is awake stays awake when values rise.
    pub(crate) proof fn lemma_awake_monotone(self, low: Seq<i32>, high: Seq<i32>, p: Pos)
        requires
            self.wf(),
            low.len() == self.start.len(),
            below(low, high),
            self.awake(low, p),
        ensures
            self.awake(high, p),
    {
        if !self.near_seed(p) {
            let q = choose|q: Pos|
                #![trigger adjacent(p, q)]
                self.has(q) && adjacent(p, q) && self.value(low, q) > self.value(self.start, q)
                    && self.value(low, q) - self.cost(p) > self.value(self.start, p);
            self.lemma_place(q);
            assert(low[self.place(q)] <= high[self.place(q)]);
            assert(self.has(q) && adjacent(p, q) && self.value(high, q) > self.value(
                self.start,
                q,
            ) && self.value(high, q) - self.cost(p) > self.value(self.start, p));
        }
    }

    /// A run may begin once every cell at or around a seed waits.
    pub(crate) proof fn lemma_working_begins(self, buffer: Seq<Pos>)
        requires
            self.wf(),
            forall|j: int|
                #![trigger buffer[j]]
                0 <= j < buffer.len() ==> self.has(buffer[j]) && self.near_seed(buffer[j]),
            forall|p: Pos|
                #![trigger self.near_seed(p)]
                self.has(p) && self.near_seed(p) ==> buffer.contains(p),
        ensures
            self.working(self.start, buffer, 0, Seq::empty()),
    {
        let cells = self.start;
        assert forall|p: Pos|
            #![trigger self.settled(cells, p)]
            self.has(p) && self.awake(cells, p) implies self.settled(cells, p) || waiting(
            buffer,
            0,
            Seq::empty(),
            p,
        ) by {
            assert(self.near_seed(p));
            assert(buffer.contains(p));
            let j = choose|j: int| 0 <= j < buffer.len() && buffer[j] == p;
            assert(buffer[j] == p);
        }
        assert forall|other: Seq<i32>| #[trigger] self.relaxed(other) implies below(
            cells,
            other,
        ) by {}
    }

    /// A run is over when nothing waits: the field is the result.
    pub(crate) proof fn lemma_working_ends(self, cells: Seq<i32>, buffer: Seq<Pos>)
        requires
            self.working(cells, buffer, buffer.len() as int, Seq::empty()),
        ensures
            self.result(cells),
    {
        assert forall|p: Pos|
            #![trigger self.settled(cells, p)]
            self.has(p) && self.awake(cells, p) implies self.settled(cells, p) by {
            assert(!waiting(buffer, buffer.len() as int, Seq::empty(), p));
        }
    }

    /// Only which cells wait matters, not where they are listed.
    pub(crate) proof fn lemma_working_relist(
        self,
        cells: Seq<i32>,
        b1: Seq<Pos>,
        k1: int,
        n1: Seq<Pos>,
        b2: Seq<Pos>,
        k2: int,
        n2: Seq<Pos>,
    )
        requires
            self.working(cells, b1, k1, n1),
            0 <= k2 <= b2.len(),
            forall|p: Pos| waiting(b1, k1, n1, p) <==> waiting(b2, k2, n2, p),
        ensures
            self.working(cells, b2, k2, n2),
    {
        assert forall|p: Pos|
            #![trigger self.settled(cells, p)]
            self.has(p) && self.awake(cells, p) implies self.settled(cells, p) || waiting(
            b2,
            k2,
            n2,
            p,
        ) by {
            assert(waiting(b1, k1, n1, p) <==> waiting(b2, k2, n2, p));
        }
        assert forall|j: int| #![trigger b2[j]] k2 <= j < b2.len() implies self.has(b2[j])
            && self.awake(cells, b2[j]) by {
            let p = b2[j];
            assert(waiting(b2, k2, n2, p));
            assert(waiting(b1, k1, n1, p));
            self.lemma_waiting_awake(cells, b1, k1, n1, p);
        }
        assert forall|j: int| #![trigger n2[j]] 0 <= j < n2.len() implies self.has(n2[j])
            && self.awake(cells, n2[j]) by {
            let p = n2[j];
            assert(waiting(b2, k2, n2, p));
            assert(waiting(b1, k1, n1, p));
            self.lemma_waiting_awake(cells, b1, k1, n1, p);
        }
    }

    pub(crate) proof fn lemma_waiting_awake(
        self,
        cells: Seq<i32>,
        buffer: Seq<Pos>,
        k: int,
        next: Seq<Pos>,
        p: Pos,
    )
        requires
            self.queued(cells, buffer, k, next),
            waiting(buffer, k, next, p),
        ensures
            self.has(p),
            self.awake(cells, p),
    {
        if exists|j: int| #![trigger buffer[j]] k <= j < buffer.len() && buffer[j] == p {
            let j = choose|j: int| #![trigger buffer[j]] k <= j < buffer.len() && buffer[j] == p;
            assert(self.has(buffer[j]));
        } else {
            let j = choose|j: int| #![trigger next[j]] 0 <= j < next.len() && next[j] == p;
            assert(self.has(next[j]));
        }
    }

    /// A waiting cell that is settled needs no more attention.
    pub(crate) proof fn lemma_working_skips(self, cells: Seq<i32>, buffer: Seq<Pos>, k: int, next: Seq<Pos>)
        requires
            self.working(cells, buffer, k, next),
            k < buffer.len(),
            self.settled(cells, buffer[k]),
        ensures
            self.working(cells, buffer, k + 1, next),
    {
        assert forall|p: Pos|
            #![trigger self.settled(cells, p)]
            self.has(p) && self.awake(cells, p) implies self.settled(cells, p) || waiting(
            buffer,
            k + 1,
            next,
            p,
        ) by {
            if !self.settled(cells, p) {
                assert(waiting(buffer, k, next, p));
                if exists|j: int| #![trigger buffer[j]] k <= j < buffer.len() && buffer[j] == p {
                    let j = choose|j: int|
                        #![trigger buffer[j]]
                        k <= j < buffer.len() && buffer[j] == p;
                    assert(j != k);
                    assert(k + 1 <= j < buffer.len() && buffer[j] == p);
                }
            }
        }
    }

    /// What raising the waiting cell `p` to `v` must look like: `v` is the
    /// best offer of its neighbours, `best` makes it, it beats what `p`
    /// holds, and `added` lists the neighbours that `v` then pulls.
    pub open spec fn raise(self, cells: Seq<i32>, p: Pos, v: i32, best: Pos, added: Seq<Pos>) -> bool {
        &&& self.has(p)
        &&& self.has(best)
        &&& adjacent(p, best)
        &&& self.value(cells, best) - self.cost(p) == v
        &&& forall|q: Pos|
            #![trigger adjacent(p, q)]
            self.has(q) && adjacent(p, q) ==> self.value(cells, q) - self.cost(p) <= v
        &&& v > self.value(cells, p)
        &&& forall|q: Pos|
            #![trigger adjacent(p, q)]
            self.has(q) && adjacent(p, q) && self.value(cells, q) < v - self.cost(q)
                ==> added.contains(q)
        &&& forall|j: int|
            #![trigger added[j]]
            0 <= j < added.len() ==> self.has(added[j]) && adjacent(p, added[j]) && self.value(
                cells,
                added[j],
            ) < v - self.cost(added[j])
    }

    proof fn lemma_raise_keeps_start(self, cells: Seq<i32>, p: Pos, v: i32)
        requires
            self.wf(),
            self.has(p),
            self.keeps_start(cells),
            v > self.value(cells, p),
        ensures
            self.keeps_start(cells.update(self.place(p), v)),
            below(cells, cells.update(self.place(p), v)),
    {
        self.lemma_place(p);
    }

    proof fn lemma_raise_capped(self, cells: Seq<i32>, p: Pos, v: i32, best: Pos)
        requires
            self.wf(),
            self.has(p),
            self.has(best),
            cells.len() == self.start.len(),
            capped(self.start, cells),
            self.value(cells, best) - self.cost(p) == v,
        ensures
            capped(self.start, cells.update(self.place(p), v)),
    {
        self.lemma_place(p);
        self.lemma_place(best);
        let raised = cells.update(self.place(p), v);
        assert(self.costs[self.place(p)] >= 0);
        assert forall|m: int| #[trigger] at_most(self.start, m) implies at_most(raised, m) by {
            assert(at_most(cells, m));
            assert(cells[self.place(best)] <= m);
        }
    }

    proof fn lemma_raise_under_all(self, cells: Seq<i32>, p: Pos, v: i32, best: Pos)
        requires
            self.wf(),
            self.has(p),
            self.has(best),
            adjacent(p, best),
            self.keeps_start(cells),
            self.under_all(cells),
            self.awake(cells, p),
            self.value(cells, best) - self.cost(p) == v,
        ensures
            self.under_all(cells.update(self.place(p), v)),
    {
        self.lemma_place(p);
        self.lemma_place(best);
        let raised = cells.update(self.place(p), v);
        assert forall|other: Seq<i32>| #[trigger] self.relaxed(other) implies below(
            raised,
            other,
        ) by {
            assert(below(cells, other));
            self.lemma_awake_monotone(cells, other, p);
            assert(self.settled(other, p));
            assert(self.value(other, best) - self.cost(p) <= self.value(other, p));
            assert(cells[self.place(best)] <= other[self.place(best)]);
        }
    }

    proof fn lemma_raise_queued(
        self,
        cells: Seq<i32>,
        buffer: Seq<Pos>,
        k: int,
        next: Seq<Pos>,
        p: Pos,
        v: i32,
        best: Pos,
        added: Seq<Pos>,
    )
        requires
            self.wf(),
            self.keeps_start(cells),
            self.queued(cells, buffer, k, next),
            k < buffer.len(),
            buffer[k] == p,
            self.raise(cells, p, v, best, added),
        ensures
            self.queued(cells.update(self.place(p), v), buffer, k + 1, next + added),
    {
        self.lemma_place(p);
        let raised = cells.update(self.place(p), v);
        let longer = next + added;
        self.lemma_raise_keeps_start(cells, p, v);
        assert forall|j: int| #![trigger buffer[j]] k + 1 <= j < buffer.len() implies self.has(
            buffer[j],
        ) && self.awake(raised, buffer[j]) by {
            self.lemma_awake_monotone(cells, raised, buffer[j]);
        }
        assert forall|j: int| #![trigger longer[j]] 0 <= j < longer.len() implies self.has(
            longer[j],
        ) && self.awake(raised, longer[j]) by {
            if j < next.len() {
                assert(longer[j] == next[j]);
                self.lemma_awake_monotone(cells, raised, next[j]);
            } else {
                let n = added[j - next.len()];
                assert(longer[j] == n);
                self.lemma_place(n);
                self.lemma_value_update(cells, p, v, p);
                assert(adjacent(n, p));
                assert(self.has(p) && adjacent(n, p) && self.value(raised, p) > self.value(
                    self.start,
                    p,
                ) && self.value(raised, p) - self.cost(n) > self.value(self.start, n));
                assert(self.pulled(raised, n));
            }
        }
    }

    proof fn lemma_raise_raised_awake(self, cells: Seq<i32>, p: Pos, v: i32)
        requires
            self.wf(),
            self.has(p),
            self.keeps_start(cells),
            self.raised_awake(cells),
            self.awake(cells, p),
            v > self.value(cells, p),
        ensures
            self.raised_awake(cells.update(self.place(p), v)),
    {
        let raised = cells.update(self.place(p), v);
        self.lemma_raise_keeps_start(cells, p, v);
        assert forall|q: Pos|
            #![trigger self.awake(raised, q)]
            self.has(q) && self.value(raised, q) > self.value(self.start, q) implies self.awake(
            raised,
            q,
        ) by {
            self.lemma_value_update(cells, p, v, q);
            if q != p {
                assert(self.awake(cells, q));
            }
            self.lemma_awake_monotone(cells, raised, q);
        }
    }

    proof fn lemma_raise_watched(
        self,
        cells: Seq<i32>,
        buffer: Seq<Pos>,
        k: int,
        next: Seq<Pos>,
        p: Pos,
        v: i32,
        best: Pos,
        added: Seq<Pos>,
    )
        requires
            self.wf(),
            self.keeps_start(cells),
            self.watched(cells, buffer, k, next),
            self.raised_awake(cells),
            k < buffer.len(),
            buffer[k] == p,
            self.raise(cells, p, v, best, added),
        ensures
            self.watched(cells.update(self.place(p), v), buffer, k + 1, next + added),
    {
        let raised = cells.update(self.place(p), v);
        let longer = next + added;
        assert forall|r: Pos|
            #![trigger self.settled(raised, r)]
            self.has(r) && self.awake(raised, r) implies self.settled(raised, r) || waiting(
            buffer,
            k + 1,
            longer,
            r,
        ) by {
            if r == p {
                assert forall|q: Pos| #![trigger adjacent(r, q)] self.has(q) && adjacent(
                    r,
                    q,
                ) implies self.value(raised, q) - self.cost(r) <= self.value(raised, r) by {
                    self.lemma_value_update(cells, p, v, q);
                    self.lemma_value_update(cells, p, v, p);
                }
            } else {
                self.lemma_value_update(cells, p, v, r);
                if adjacent(p, r) && self.value(cells, r) < v - self.cost(r) {
                    assert(added.contains(r));
                    let j = choose|j: int| 0 <= j < added.len() && added[j] == r;
                    assert(longer[next.len() + j] == r);
                } else {
                    // what `r` is offered has not grown beyond what it holds
                    if !self.awake(cells, r) {
                        // then `r` still holds its start, so only `p` could pull it
                        let q = choose|q: Pos|
                            #![trigger adjacent(r, q)]
                            self.has(q) && adjacent(r, q) && self.value(raised, q) > self.value(
                                self.start,
                                q,
                            ) && self.value(raised, q) - self.cost(r) > self.value(self.start, r);
                        self.lemma_value_update(cells, p, v, q);
                        self.lemma_place(r);
                        if q != p {
                            assert(self.pulled(cells, r));
                        } else {
                            assert(adjacent(p, r));
                            assert(self.value(cells, r) <= self.value(self.start, r));
                        }
                        assert(false);
                    }
                    if self.settled(cells, r) {
                        assert forall|q: Pos| #![trigger adjacent(r, q)] self.has(q) && adjacent(
                            r,
                            q,
                        ) implies self.value(raised, q) - self.cost(r) <= self.value(
                            raised,
                            r,
                        ) by {
                            self.lemma_value_update(cells, p, v, q);
                            if q == p {
                                assert(adjacent(p, r));
                            }
                        }
                    } else {
                        assert(waiting(buffer, k, next, r));
                        if exists|j: int|
                            #![trigger buffer[j]]
                            k <= j < buffer.len() && buffer[j] == r {
                            let j = choose|j: int|
                                #![trigger buffer[j]]
                                k <= j < buffer.len() && buffer[j] == r;
                            assert(k + 1 <= j < buffer.len() && buffer[j] == r);
                        } else {
                            let j = choose|j: int|
                                #![trigger next[j]]
                                0 <= j < next.len() && next[j] == r;
                            assert(longer[j] == r);
                        }
                    }
                }
            }
        }
    }

    /// Raising a waiting cell to the best offer of its neighbours, and
    /// listing the neighbours that this pulls, keeps the run in order.
    pub(crate) proof fn lemma_working_raises(
        self,
        cells: Seq<i32>,
        buffer: Seq<Pos>,
        k: int,
        next: Seq<Pos>,
        p: Pos,
        v: i32,
        best: Pos,
        added: Seq<Pos>,
    )
        requires
            self.wf(),
            self.working(cells, buffer, k, next),
            0 <= k < buffer.len(),
            buffer[k] == p,
            self.raise(cells, p, v, best, added),
        ensures
            self.working(cells.update(self.place(p), v), buffer, k + 1, next + added),
            headroom(cells.update(self.place(p), v)) < headroom(cells),
    {
        self.lemma_place(p);
        assert(self.has(buffer[k]) && self.awake(cells, buffer[k]));
        self.lemma_raise_keeps_start(cells, p, v);
        self.lemma_raise_capped(cells, p, v, best);
        self.lemma_raise_under_all(cells, p, v, best);
        self.lemma_raise_queued(cells, buffer, k, next, p, v, best, added);
        self.lemma_raise_raised_awake(cells, p, v);
        self.lemma_raise_watched(cells, buffer, k, next, p, v, best, added);
        lemma_headroom_update(cells, self.place(p), v);
    }
}

} // verus!
