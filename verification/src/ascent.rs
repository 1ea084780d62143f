//! Ascent paths: from a cell, step to the highest neighbour for as long as
//! it lies higher than the cell itself.
//!
//! Where several neighbours share the highest value, the one that comes last
//! in the order left, right, below, above is taken.

use vstd::prelude::*;
use crate::arrows::walkable;
use crate::field::{adjacent, inside, lemma_neighbors_of, neighbors_of, potential};
use crate::grid::{flat_index, lemma_flat_index_bounds, lemma_flat_index_injective};
use crate::pos::Pos;

verus! {

/// The cell of `around` with the highest value; of several, the last.
pub open spec fn highest_of(width: int, cells: Seq<i32>, around: Seq<Pos>) -> Pos
    decreases around.len(),
{
    if around.len() <= 1 {
        around[0]
    } else {
        let before = highest_of(width, cells, around.drop_last());
        if potential(width, cells, around.last()) >= potential(width, cells, before) {
            around.last()
        } else {
            before
        }
    }
}

/// Where an ascent goes next from `p`: to its highest neighbour, if that
/// lies higher than `p`.
pub open spec fn uphill(width: int, height: int, cells: Seq<i32>, p: Pos) -> Option<Pos> {
    let around = neighbors_of(width, height, p);
    let top = highest_of(width, cells, around);
    if around.len() > 0 && potential(width, cells, top) > potential(width, cells, p) {
        Some(top)
    } else {
        None
    }
}

/// The ascent from `p`: `p` itself, then the ascent from where `p` leads.
pub open spec fn ascent(width: int, height: int, cells: Seq<i32>, p: Pos) -> Seq<Pos>
    decreases i32::MAX - potential(width, cells, p),
{
    match uphill(width, height, cells, p) {
        Some(q) => seq![p] + ascent(width, height, cells, q),
        None => seq![p],
    }
}

/// The highest of a list is one of the list and no other lies higher.
pub proof fn lemma_highest_of(width: int, cells: Seq<i32>, around: Seq<Pos>)
    requires
        around.len() > 0,
    ensures
        around.contains(highest_of(width, cells, around)),
        forall|j: int|
            0 <= j < around.len() ==> potential(width, cells, #[trigger] around[j]) <= potential(
                width,
                cells,
                highest_of(width, cells, around),
            ),
    decreases around.len(),
{
    if around.len() > 1 {
        let shorter = around.drop_last();
        lemma_highest_of(width, cells, shorter);
        let before = highest_of(width, cells, shorter);
        let j = choose|j: int| 0 <= j < shorter.len() && shorter[j] == before;
        assert(around[j] == before);
        assert(around[around.len() - 1] == around.last());
        assert forall|j: int| 0 <= j < around.len() implies potential(
            width,
            cells,
            #[trigger] around[j],
        ) <= potential(width, cells, highest_of(width, cells, around)) by {
            if j < shorter.len() {
                assert(shorter[j] == around[j]);
            }
        }
    } else {
        assert(around[0] == highest_of(width, cells, around));
    }
}

/// A step uphill leads to a neighbour in the grid that lies higher, and
/// where there is no step, no neighbour lies higher.
pub proof fn lemma_uphill(width: int, height: int, cells: Seq<i32>, p: Pos)
    requires
        width <= i32::MAX,
        height <= i32::MAX,
    ensures
        match uphill(width, height, cells, p) {
            Some(q) => inside(width, height, q) && adjacent(p, q) && potential(width, cells, q)
                > potential(width, cells, p),
            None => forall|q: Pos|
                #![trigger adjacent(p, q)]
                inside(width, height, q) && adjacent(p, q) ==> potential(width, cells, q)
                    <= potential(width, cells, p),
        },
{
    let around = neighbors_of(width, height, p);
    lemma_neighbors_of(width, height, p);
    if around.len() > 0 {
        lemma_highest_of(width, cells, around);
        if uphill(width, height, cells, p) is None {
            assert forall|q: Pos|
                #![trigger adjacent(p, q)]
                inside(width, height, q) && adjacent(p, q) implies potential(width, cells, q)
                <= potential(width, cells, p) by {
                assert(around.contains(q));
                let j = choose|j: int| 0 <= j < around.len() && around[j] == q;
                assert(potential(width, cells, around[j]) <= potential(
                    width,
                    cells,
                    highest_of(width, cells, around),
                ));
            }
        }
    } else {
        assert forall|q: Pos|
            #![trigger adjacent(p, q)]
            inside(width, height, q) && adjacent(p, q) implies potential(width, cells, q)
            <= potential(width, cells, p) by {
            assert(around.contains(q));
        }
    }
}

/// An ascent starts at its first cell, stays in the grid, moves between
/// neighbours, climbs with every step and ends where no neighbour lies
/// higher.
pub proof fn lemma_ascent_climbs(width: int, height: int, cells: Seq<i32>, p: Pos)
    requires
        width <= i32::MAX,
        height <= i32::MAX,
        inside(width, height, p),
    ensures
        ascent(width, height, cells, p).len() >= 1,
        ascent(width, height, cells, p)[0] == p,
        forall|i: int|
            0 <= i < ascent(width, height, cells, p).len() ==> inside(
                width,
                height,
                #[trigger] ascent(width, height, cells, p)[i],
            ),
        forall|i: int|
            #![trigger ascent(width, height, cells, p)[i]]
            0 <= i < ascent(width, height, cells, p).len() - 1 ==> adjacent(
                ascent(width, height, cells, p)[i],
                ascent(width, height, cells, p)[i + 1],
            ) && potential(width, cells, ascent(width, height, cells, p)[i]) < potential(
                width,
                cells,
                ascent(width, height, cells, p)[i + 1],
            ),
        uphill(width, height, cells, ascent(width, height, cells, p).last()) is None,
        forall|i: int|
            0 <= i < ascent(width, height, cells, p).len() ==> potential(width, cells, p) + i
                <= potential(width, cells, #[trigger] ascent(width, height, cells, p)[i]),
    decreases i32::MAX - potential(width, cells, p),
{
    let path = ascent(width, height, cells, p);
    lemma_uphill(width, height, cells, p);
    match uphill(width, height, cells, p) {
        Some(q) => {
            lemma_ascent_climbs(width, height, cells, q);
            let rest = ascent(width, height, cells, q);
            assert(path == seq![p] + rest);
            assert forall|i: int| 0 <= i < path.len() implies inside(
                width,
                height,
                #[trigger] path[i],
            ) by {
                if i > 0 {
                    assert(path[i] == rest[i - 1]);
                }
            }
            assert forall|i: int| #![trigger path[i]] 0 <= i < path.len() - 1 implies adjacent(
                path[i],
                path[i + 1],
            ) && potential(width, cells, path[i]) < potential(width, cells, path[i + 1]) by {
                assert(path[i + 1] == rest[i]);
                if i > 0 {
                    assert(path[i] == rest[i - 1]);
                }
            }
            assert(path.last() == rest.last());
            assert forall|i: int| 0 <= i < path.len() implies potential(width, cells, p) + i
                <= potential(width, cells, #[trigger] path[i]) by {
                if i > 0 {
                    assert(path[i] == rest[i - 1]);
                }
            }
        },
        None => {},
    }
}

/// An ascent climbs from each of its cells to every later one, so it visits
/// no cell twice.
pub proof fn lemma_ascent_never_returns(width: int, height: int, cells: Seq<i32>, p: Pos)
    requires
        width <= i32::MAX,
        height <= i32::MAX,
        inside(width, height, p),
    ensures
        forall|i: int, j: int|
            #![trigger ascent(width, height, cells, p)[i], ascent(width, height, cells, p)[j]]
            0 <= i < j < ascent(width, height, cells, p).len() ==> potential(
                width,
                cells,
                ascent(width, height, cells, p)[i],
            ) < potential(width, cells, ascent(width, height, cells, p)[j]),
        ascent(width, height, cells, p).no_duplicates(),
    decreases i32::MAX - potential(width, cells, p),
{
    let path = ascent(width, height, cells, p);
    lemma_uphill(width, height, cells, p);
    lemma_ascent_climbs(width, height, cells, p);
    match uphill(width, height, cells, p) {
        Some(q) => {
            lemma_ascent_never_returns(width, height, cells, q);
            lemma_ascent_climbs(width, height, cells, q);
            let rest = ascent(width, height, cells, q);
            assert(path == seq![p] + rest);
            assert forall|i: int, j: int|
                #![trigger path[i], path[j]]
                0 <= i < j < path.len() implies potential(width, cells, path[i]) < potential(
                width,
                cells,
                path[j],
            ) by {
                assert(path[j] == rest[j - 1]);
                if i > 0 {
                    assert(path[i] == rest[i - 1]);
                } else {
                    assert(potential(width, cells, q) + (j - 1) <= potential(
                        width,
                        cells,
                        rest[j - 1],
                    ));
                }
            }
        },
        None => {},
    }
    assert forall|i: int, j: int| 0 <= i < path.len() && 0 <= j < path.len() && i != j implies path[i]
        != path[j] by {
        if i < j {
            assert(potential(width, cells, path[i]) < potential(width, cells, path[j]));
        } else {
            assert(potential(width, cells, path[j]) < potential(width, cells, path[i]));
        }
    }
}

/// An ascent takes at most as many steps as the highest value of the grid
/// lies above the value of the first cell: every step climbs by one at
/// least.
pub proof fn lemma_ascent_steps(width: int, height: int, cells: Seq<i32>, p: Pos, span: int)
    requires
        0 <= width <= i32::MAX,
        0 <= height <= i32::MAX,
        inside(width, height, p),
        forall|q: Pos|
            inside(width, height, q) ==> #[trigger] potential(width, cells, q) <= potential(
                width,
                cells,
                p,
            ) + span,
    ensures
        ascent(width, height, cells, p).len() - 1 <= span,
{
    let path = ascent(width, height, cells, p);
    lemma_ascent_climbs(width, height, cells, p);
    let last = path.len() - 1;
    assert(inside(width, height, path[last]));
    assert(potential(width, cells, p) + last <= potential(width, cells, path[last]));
}

/// Where no value of the grid lies more than `width + height` above the
/// value of the first cell, an ascent takes at most `width + height` steps
/// and visits no cell twice.
pub proof fn lemma_ascent_is_short(width: int, height: int, cells: Seq<i32>, p: Pos)
    requires
        0 <= width <= i32::MAX,
        0 <= height <= i32::MAX,
        inside(width, height, p),
        forall|q: Pos|
            inside(width, height, q) ==> #[trigger] potential(width, cells, q) <= potential(
                width,
                cells,
                p,
            ) + width + height,
    ensures
        ascent(width, height, cells, p).len() - 1 <= width + height,
        ascent(width, height, cells, p).no_duplicates(),
{
    lemma_ascent_steps(width, height, cells, p, width + height);
    lemma_ascent_never_returns(width, height, cells, p);
}

/// An ascent holds at most as many cells as the grid has.
pub proof fn lemma_ascent_fits(width: int, height: int, cells: Seq<i32>, p: Pos)
    requires
        0 <= width <= i32::MAX,
        0 <= height <= i32::MAX,
        inside(width, height, p),
    ensures
        ascent(width, height, cells, p).len() <= height * width,
{
    let path = ascent(width, height, cells, p);
    lemma_ascent_climbs(width, height, cells, p);
    lemma_ascent_never_returns(width, height, cells, p);
    let places = Seq::new(path.len(), |i: int| flat_index(width, path[i].x as int, path[i].y as int));
    assert forall|i: int, j: int| 0 <= i < places.len() && 0 <= j < places.len() && i != j implies places[i]
        != places[j] by {
        assert(inside(width, height, path[i]));
        assert(inside(width, height, path[j]));
        if places[i] == places[j] {
            lemma_flat_index_injective(
                width,
                path[i].x as int,
                path[i].y as int,
                path[j].x as int,
                path[j].y as int,
            );
            assert(path[i] == path[j]);
        }
    }
    places.unique_seq_to_set();
    let all = vstd::set_lib::set_int_range(0, height * width);
    assert(0 <= height * width) by (nonlinear_arith)
        requires
            0 <= width,
            0 <= height,
    ;
    vstd::set_lib::lemma_int_range(0, height * width);
    assert forall|v: int| places.to_set().contains(v) implies all.contains(v) by {
        let i = choose|i: int| 0 <= i < places.len() && places[i] == v;
        assert(inside(width, height, path[i]));
        lemma_flat_index_bounds(width, height, path[i].x as int, path[i].y as int);
    }
    vstd::set_lib::lemma_len_subset(places.to_set(), all);
}

/// An ascent can be shown with arrows: it goes from neighbour to neighbour
/// and never steps back.
pub proof fn lemma_ascent_walkable(width: int, height: int, cells: Seq<i32>, p: Pos)
    requires
        width <= i32::MAX,
        height <= i32::MAX,
        inside(width, height, p),
    ensures
        walkable(ascent(width, height, cells, p)),
{
    let path = ascent(width, height, cells, p);
    lemma_ascent_climbs(width, height, cells, p);
    lemma_ascent_never_returns(width, height, cells, p);
    assert forall|i: int| 0 <= i < path.len() - 1 implies adjacent(#[trigger] path[i], path[i + 1]) by {}
    assert forall|i: int| 0 <= i < path.len() - 2 implies #[trigger] path[i] != path[i + 2] by {}
}

} // verus!
