//! A rectangular grid of values stored row by row.
//!
//! Cell `(x, y)` lives at position `y * width + x` of the flat sequence that
//! is the grid's view. Two families of accessors exist: the plain ones demand
//! coordinates inside the grid, the clamped ones move any coordinate to the
//! nearest cell of a non-empty grid.

use vstd::prelude::*;
use crate::pos::Pos;

verus! {

/// The coordinate in `0..limit` that is nearest to `v`.
pub open spec fn clamp_coord(v: int, limit: int) -> int {
    if v < 0 {
        0
    } else if v >= limit {
        limit - 1
    } else {
        v
    }
}

/// `v` moved into `lo..=hi`.
pub open spec fn clamp_value(v: int, lo: int, hi: int) -> int {
    if v < lo {
        lo
    } else if v > hi {
        hi
    } else {
        v
    }
}

/// Position of cell `(x, y)` in the flat sequence of a grid `width` wide.
pub open spec fn flat_index(width: int, x: int, y: int) -> int {
    y * width + x
}

/// The cell whose place in a field `width` wide is `i`.
pub open spec fn pos_at(width: int, i: int) -> Pos {
    Pos { x: (i % width) as i32, y: (i / width) as i32 }
}

/// Every cell of a `width` by `height` grid has its own place below `width * height`.
pub proof fn lemma_flat_index_bounds(width: int, height: int, x: int, y: int)
    requires
        0 <= x < width,
        0 <= y < height,
    ensures
        0 <= flat_index(width, x, y) < height * width,
        0 <= y * width <= flat_index(width, x, y),
        flat_index(width, x, y) / width == y,
        flat_index(width, x, y) % width == x,
{
    assert(y * width + x < height * width && 0 <= y * width) by (nonlinear_arith)
        requires
            0 <= x < width,
            0 <= y < height,
    ;
    vstd::arithmetic::div_mod::lemma_fundamental_div_mod_converse(y * width + x, width, y, x);
}

/// Two different cells never share a place in the flat sequence.
pub proof fn lemma_flat_index_injective(width: int, x1: int, y1: int, x2: int, y2: int)
    requires
        0 <= x1 < width,
        0 <= x2 < width,
        0 <= y1,
        0 <= y2,
        flat_index(width, x1, y1) == flat_index(width, x2, y2),
    ensures
        x1 == x2,
        y1 == y2,
{
    vstd::arithmetic::div_mod::lemma_fundamental_div_mod_converse(y1 * width + x1, width, y1, x1);
    vstd::arithmetic::div_mod::lemma_fundamental_div_mod_converse(y2 * width + x2, width, y2, x2);
}

/// Every place below `height * width` is the place of one cell.
pub proof fn lemma_cell_of_index(width: int, height: int, i: int)
    requires
        0 <= i < height * width,
        0 <= width,
        0 <= height,
    ensures
        0 <= i % width < width,
        0 <= i / width < height,
        flat_index(width, i % width, i / width) == i,
{
    assert(width > 0) by (nonlinear_arith)
        requires
            0 <= i < height * width,
            0 <= width,
    ;
    vstd::arithmetic::div_mod::lemma_fundamental_div_mod(i, width);
    vstd::arithmetic::div_mod::lemma_div_pos_is_pos(i, width);
    assert(i / width < height) by (nonlinear_arith)
        requires
            i == width * (i / width) + i % width,
            0 <= i % width < width,
            i < height * width,
            0 <= height,
    ;
    assert(width * (i / width) == (i / width) * width) by (nonlinear_arith);
}

pub struct Grid<T> {
    width: i32,
    height: i32,
    data: Vec<T>,
}

impl<T: Copy> Clone for Grid<T> {
    /// A grid of the same shape with the same values.
    fn clone(&self) -> (g: Self)
        ensures
            g@ == self@,
            g.spec_width() == self.spec_width(),
            g.spec_height() == self.spec_height(),
    {
        let mut data: Vec<T> = Vec::new();
        let mut i: usize = 0;
        while i < self.data.len()
            invariant
                i <= self.data@.len(),
                data@ == self.data@.subrange(0, i as int),
            decreases self.data@.len() - i,
        {
            data.push(self.data[i]);
            i = i + 1;
        }
        assert(self.data@.subrange(0, self.data@.len() as int) == self.data@);
        Grid { width: self.width, height: self.height, data }
    }
}

impl<T> View for Grid<T> {
    type V = Seq<T>;

    closed spec fn view(&self) -> Seq<T> {
        self.data@
    }
}

impl<T> Grid<T> {
    pub closed spec fn spec_width(&self) -> int {
        self.width as int
    }

    pub closed spec fn spec_height(&self) -> int {
        self.height as int
    }

    /// The flat sequence holds exactly one value per cell.
    pub open spec fn wf(&self) -> bool {
        &&& 0 <= self.spec_width() <= i32::MAX
        &&& 0 <= self.spec_height() <= i32::MAX
        &&& self@.len() == self.spec_height() * self.spec_width()
        &&& self@.len() <= usize::MAX
    }

    /// `(x, y)` names a cell of the grid.
    pub open spec fn contains(&self, x: int, y: int) -> bool {
        0 <= x < self.spec_width() && 0 <= y < self.spec_height()
    }

    pub open spec fn contains_pos(&self, p: Pos) -> bool {
        self.contains(p.x as int, p.y as int)
    }

    /// The value of cell `(x, y)`.
    pub open spec fn at(&self, x: int, y: int) -> T {
        self@[flat_index(self.spec_width(), x, y)]
    }

    pub open spec fn at_pos(&self, p: Pos) -> T {
        self.at(p.x as int, p.y as int)
    }

    /// The value of the cell nearest to `(x, y)`.
    pub open spec fn at_clamped(&self, x: int, y: int) -> T {
        self.at(clamp_coord(x, self.spec_width()), clamp_coord(y, self.spec_height()))
    }

    /// Same shape as `other`, whatever the values.
    pub open spec fn same_shape<U>(&self, other: &Grid<U>) -> bool {
        self.spec_width() == other.spec_width() && self.spec_height() == other.spec_height()
    }

    pub fn width(&self) -> (w: i32)
        ensures
            w == self.spec_width(),
    {
        self.width
    }

    pub fn height(&self) -> (h: i32)
        ensures
            h == self.spec_height(),
    {
        self.height
    }

    /// Whether `(x, y)` names a cell.
    pub fn in_bounds(&self, x: i32, y: i32) -> (b: bool)
        ensures
            b == self.contains(x as int, y as int),
    {
        0 <= x && x < self.width && 0 <= y && y < self.height
    }

    fn index_of(&self, x: i32, y: i32) -> (i: usize)
        requires
            self.wf(),
            self.contains(x as int, y as int),
        ensures
            i == flat_index(self.spec_width(), x as int, y as int),
            i < self@.len(),
    {
        proof {
            lemma_flat_index_bounds(self.spec_width(), self.spec_height(), x as int, y as int);
        }
        (y as usize) * (self.width as usize) + (x as usize)
    }

    fn clamp_x(&self, x: i32) -> (c: i32)
        requires
            self.spec_width() > 0,
        ensures
            c == clamp_coord(x as int, self.spec_width()),
            0 <= c < self.spec_width(),
    {
        if x < 0 {
            0
        } else if x >= self.width {
            self.width - 1
        } else {
            x
        }
    }

    fn clamp_y(&self, y: i32) -> (c: i32)
        requires
            self.spec_height() > 0,
        ensures
            c == clamp_coord(y as int, self.spec_height()),
            0 <= c < self.spec_height(),
    {
        if y < 0 {
            0
        } else if y >= self.height {
            self.height - 1
        } else {
            y
        }
    }

    /// The cell `(x, y)`, which must lie inside the grid.
    pub fn get(&self, x: i32, y: i32) -> (cell: &T)
        requires
            self.wf(),
            self.contains(x as int, y as int),
        ensures
            *cell == self.at(x as int, y as int),
    {
        let i = self.index_of(x, y);
        &self.data[i]
    }

    /// Write access to the cell `(x, y)`, which must lie inside the grid.
    /// Only that cell can change.
    pub fn get_mut(&mut self, x: i32, y: i32) -> (cell: &mut T)
        requires
            old(self).wf(),
            old(self).contains(x as int, y as int),
        ensures
            *cell == old(self).at(x as int, y as int),
            final(self).wf(),
            final(self).same_shape(old(self)),
            final(self)@ == old(self)@.update(
                flat_index(old(self).spec_width(), x as int, y as int),
                *final(cell),
            ),
    {
        let i = self.index_of(x, y);
        &mut self.data[i]
    }

    /// The cell nearest to `(x, y)` in a grid that has cells.
    pub fn get_clamped(&self, x: i32, y: i32) -> (cell: &T)
        requires
            self.wf(),
            self.spec_width() > 0,
            self.spec_height() > 0,
        ensures
            *cell == self.at_clamped(x as int, y as int),
    {
        let cx = self.clamp_x(x);
        let cy = self.clamp_y(y);
        self.get(cx, cy)
    }

    /// The cell nearest to `pos` in a grid that has cells.
    pub fn get_clamped_v(&self, pos: Pos) -> (cell: &T)
        requires
            self.wf(),
            self.spec_width() > 0,
            self.spec_height() > 0,
        ensures
            *cell == self.at_clamped(pos.x as int, pos.y as int),
    {
        self.get_clamped(pos.x, pos.y)
    }

    /// Write access to the cell nearest to `(x, y)` in a grid that has cells.
    /// Only that cell can change.
    pub fn get_clamped_mut(&mut self, x: i32, y: i32) -> (cell: &mut T)
        requires
            old(self).wf(),
            old(self).spec_width() > 0,
            old(self).spec_height() > 0,
        ensures
            *cell == old(self).at_clamped(x as int, y as int),
            final(self).wf(),
            final(self).same_shape(old(self)),
            final(self)@ == old(self)@.update(
                flat_index(
                    old(self).spec_width(),
                    clamp_coord(x as int, old(self).spec_width()),
                    clamp_coord(y as int, old(self).spec_height()),
                ),
                *final(cell),
            ),
    {
        let cx = self.clamp_x(x);
        let cy = self.clamp_y(y);
        self.get_mut(cx, cy)
    }

    /// The grid of the given shape whose cells are `data`, row by row.
    /// `None` where `data` has not one value per cell.
    pub fn from_vec(width: i32, height: i32, data: Vec<T>) -> (g: Option<Grid<T>>)
        requires
            0 <= width,
            0 <= height,
        ensures
            g is Some <==> data@.len() == height * width,
            g matches Some(grid) ==> grid.wf() && grid.spec_width() == width && grid.spec_height()
                == height && grid@ == data@,
    {
        proof {
            assert(0 <= height * width <= 0x7fff_ffff * 0x7fff_ffff) by (nonlinear_arith)
                requires
                    0 <= width <= 0x7fff_ffff,
                    0 <= height <= 0x7fff_ffff,
            ;
        }
        let cells: u64 = (height as u64) * (width as u64);
        if data.len() as u64 == cells {
            Some(Grid { width, height, data })
        } else {
            None
        }
    }

    /// A grid of the given shape in which every cell holds what `f` returns
    /// for its position. `f` is called once per cell, row by row.
    pub fn from_fn<F: Fn(Pos) -> T>(width: i32, height: i32, f: F) -> (g: Grid<T>)
        requires
            0 <= width,
            0 <= height,
            width * height <= usize::MAX,
            forall|p: Pos|
                0 <= p.x < width && 0 <= p.y < height ==> #[trigger] call_requires(f, (p,)),
        ensures
            g.wf(),
            g.spec_width() == width,
            g.spec_height() == height,
            forall|p: Pos| g.contains_pos(p) ==> call_ensures(f, (p,), #[trigger] g.at_pos(p)),
    {
        proof {
            assert(height * width == width * height) by (nonlinear_arith);
        }
        let mut data: Vec<T> = Vec::new();
        let mut y: i32 = 0;
        while y < height
            invariant
                0 <= y <= height,
                0 <= width,
                height * width <= usize::MAX,
                data@.len() == y * width,
                forall|p: Pos|
                0 <= p.x < width && 0 <= p.y < height ==> #[trigger] call_requires(f, (p,)),
                forall|p: Pos|
                    0 <= p.x < width && 0 <= p.y < y ==> call_ensures(
                        f,
                        (p,),
                        #[trigger] data@[flat_index(width as int, p.x as int, p.y as int)],
                    ),
            decreases height - y,
        {
            let mut x: i32 = 0;
            while x < width
                invariant
                    0 <= y < height,
                    0 <= x <= width,
                    height * width <= usize::MAX,
                    data@.len() == y * width + x,
                    forall|p: Pos|
                0 <= p.x < width && 0 <= p.y < height ==> #[trigger] call_requires(f, (p,)),
                    forall|p: Pos|
                        0 <= p.x < width && 0 <= p.y < height && (p.y < y || (p.y == y && p.x < x))
                            ==> call_ensures(
                            f,
                            (p,),
                            #[trigger] data@[flat_index(width as int, p.x as int, p.y as int)],
                        ),
                decreases width - x,
            {
                let ghost before = data@;
                let here = Pos::new(x, y);
                let v = f(here);
                data.push(v);
                proof {
                    assert forall|p: Pos|
                        0 <= p.x < width && 0 <= p.y < height && (p.y < y || (p.y == y && p.x < x
                            + 1)) implies call_ensures(
                        f,
                        (p,),
                        #[trigger] data@[flat_index(width as int, p.x as int, p.y as int)],
                    ) by {
                        if p.y < y {
                            lemma_flat_index_bounds(width as int, y as int, p.x as int, p.y as int);
                        }
                        if p.y < y || p.x < x {
                            assert(data@[flat_index(width as int, p.x as int, p.y as int)]
                                == before[flat_index(width as int, p.x as int, p.y as int)]);
                        } else {
                            assert(p == here);
                        }
                    }
                }
                x = x + 1;
            }
            proof {
                assert((y + 1) * width == y * width + width) by (nonlinear_arith);
            }
            y = y + 1;
        }
        Grid { width, height, data }
    }
}

impl<T: Copy> Grid<T> {
    /// A grid of the given shape with `fill` in every cell.
    pub fn new(width: i32, height: i32, fill: T) -> (g: Grid<T>)
        requires
            0 <= width,
            0 <= height,
            width * height <= usize::MAX,
        ensures
            g.wf(),
            g.spec_width() == width,
            g.spec_height() == height,
            forall|i: int| 0 <= i < g@.len() ==> g@[i] == fill,
    {
        proof {
            assert(height * width == width * height) by (nonlinear_arith);
        }
        let n: usize = (height as usize) * (width as usize);
        let mut data: Vec<T> = Vec::new();
        while data.len() < n
            invariant
                data.len() <= n,
                forall|i: int| 0 <= i < data.len() ==> data@[i] == fill,
            decreases n - data.len(),
        {
            data.push(fill);
        }
        Grid { width, height, data }
    }

    /// Overwrite the cell at `pos`, which must lie inside the grid.
    pub fn set(&mut self, pos: Pos, value: T)
        requires
            old(self).wf(),
            old(self).contains_pos(pos),
        ensures
            final(self).wf(),
            final(self).same_shape(old(self)),
            final(self)@ == old(self)@.update(
                flat_index(old(self).spec_width(), pos.x as int, pos.y as int),
                value,
            ),
    {
        let i = self.index_of(pos.x, pos.y);
        self.data.set(i, value);
    }

    /// Every cell with its coordinates, row by row.
    pub fn iter(&self) -> (cells: Vec<(i32, i32, T)>)
        requires
            self.wf(),
        ensures
            cells@.len() == self@.len(),
            forall|x: int, y: int|
                self.contains(x, y) ==> #[trigger] cells@[flat_index(self.spec_width(), x, y)] == (
                    x as i32,
                    y as i32,
                    self.at(x, y),
                ),
    {
        let mut cells: Vec<(i32, i32, T)> = Vec::new();
        let mut y: i32 = 0;
        while y < self.height
            invariant
                self.wf(),
                0 <= y <= self.spec_height(),
                cells@.len() == y * self.spec_width(),
                forall|a: int, b: int|
                    0 <= a < self.spec_width() && 0 <= b < y ==> #[trigger] cells@[flat_index(
                        self.spec_width(),
                        a,
                        b,
                    )] == (a as i32, b as i32, self.at(a, b)),
            decreases self.spec_height() - y,
        {
            let mut x: i32 = 0;
            while x < self.width
                invariant
                    self.wf(),
                    0 <= y < self.spec_height(),
                    0 <= x <= self.spec_width(),
                    cells@.len() == y * self.spec_width() + x,
                    forall|a: int, b: int|
                        0 <= a < self.spec_width() && 0 <= b < self.spec_height() && (b < y || (b
                            == y && a < x)) ==> #[trigger] cells@[flat_index(
                            self.spec_width(),
                            a,
                            b,
                        )] == (a as i32, b as i32, self.at(a, b)),
                decreases self.spec_width() - x,
            {
                let ghost before = cells@;
                let v = *self.get(x, y);
                cells.push((x, y, v));
                proof {
                    assert forall|a: int, b: int|
                        0 <= a < self.spec_width() && 0 <= b < self.spec_height() && (b < y || (b
                            == y && a < x + 1)) implies #[trigger] cells@[flat_index(
                        self.spec_width(),
                        a,
                        b,
                    )] == (a as i32, b as i32, self.at(a, b)) by {
                        if b < y || a < x {
                            lemma_flat_index_bounds(self.spec_width(), y as int + 1, a, b);
                            assert(flat_index(self.spec_width(), a, b) < before.len()) by {
                                if b < y {
                                    lemma_flat_index_bounds(self.spec_width(), y as int, a, b);
                                }
                            }
                        }
                    }
                }
                x = x + 1;
            }
            proof {
                assert((y + 1) * self.spec_width() == y * self.spec_width() + self.spec_width())
                    by (nonlinear_arith);
            }
            y = y + 1;
        }
        proof {
            assert(y == self.spec_height());
        }
        cells
    }

    /// Every cell with its position, row by row.
    pub fn iter_coords(&self) -> (cells: Vec<(Pos, T)>)
        requires
            self.wf(),
        ensures
            cells@.len() == self@.len(),
            forall|x: int, y: int|
                self.contains(x, y) ==> #[trigger] cells@[flat_index(self.spec_width(), x, y)] == (
                    Pos { x: x as i32, y: y as i32 },
                    self.at(x, y),
                ),
    {
        let triples = self.iter();
        let mut cells: Vec<(Pos, T)> = Vec::new();
        let mut i: usize = 0;
        while i < triples.len()
            invariant
                i <= triples.len(),
                cells@.len() == i,
                forall|j: int|
                    0 <= j < i ==> cells@[j] == (
                        Pos { x: triples@[j].0, y: triples@[j].1 },
                        triples@[j].2,
                    ),
            decreases triples.len() - i,
        {
            let t = triples[i];
            cells.push((Pos::new(t.0, t.1), t.2));
            i = i + 1;
        }
        proof {
            assert forall|x: int, y: int| self.contains(x, y) implies #[trigger] cells@[flat_index(
                self.spec_width(),
                x,
                y,
            )] == (Pos { x: x as i32, y: y as i32 }, self.at(x, y)) by {
                lemma_flat_index_bounds(self.spec_width(), self.spec_height(), x, y);
            }
        }
        cells
    }
}

impl Grid<i32> {
    /// Move every value into `lo..=hi`.
    pub fn clamp_values(&mut self, lo: i32, hi: i32)
        requires
            old(self).wf(),
            lo <= hi,
        ensures
            final(self).wf(),
            final(self).same_shape(old(self)),
            final(self)@.len() == old(self)@.len(),
            forall|i: int|
                0 <= i < old(self)@.len() ==> final(self)@[i] == clamp_value(
                    old(self)@[i] as int,
                    lo as int,
                    hi as int,
                ),
    {
        let mut i: usize = 0;
        while i < self.data.len()
            invariant
                self.wf(),
                self.same_shape(old(self)),
                self@.len() == old(self)@.len(),
                i <= self@.len(),
                lo <= hi,
                forall|j: int|
                    0 <= j < i ==> self@[j] == clamp_value(
                        old(self)@[j] as int,
                        lo as int,
                        hi as int,
                    ),
                forall|j: int| i <= j < self@.len() ==> self@[j] == old(self)@[j],
            decreases self@.len() - i,
        {
            let v = self.data[i];
            let c = if v < lo {
                lo
            } else if v > hi {
                hi
            } else {
                v
            };
            self.data.set(i, c);
            i = i + 1;
        }
    }

    /// Multiply every cell by the cell of `other` at the same place.
    pub fn mul_inplace(&mut self, other: &Grid<i32>)
        requires
            old(self).wf(),
            other.wf(),
            old(self).same_shape(other),
            forall|i: int|
                0 <= i < other@.len() ==> i32::MIN <= #[trigger] (old(self)@[i] * other@[i])
                    <= i32::MAX,
        ensures
            final(self).wf(),
            final(self).same_shape(old(self)),
            final(self)@.len() == old(self)@.len(),
            forall|i: int|
                0 <= i < old(self)@.len() ==> final(self)@[i] == old(self)@[i] * other@[i],
    {
        let mut i: usize = 0;
        while i < self.data.len()
            invariant
                self.wf(),
                other.wf(),
                self.same_shape(old(self)),
                self.same_shape(other),
                self@.len() == old(self)@.len(),
                self@.len() == other@.len(),
                i <= self@.len(),
                forall|j: int|
                    0 <= j < other@.len() ==> i32::MIN <= #[trigger] (old(self)@[j] * other@[j])
                        <= i32::MAX,
                forall|j: int| 0 <= j < i ==> self@[j] == old(self)@[j] * other@[j],
                forall|j: int| i <= j < self@.len() ==> self@[j] == old(self)@[j],
            decreases self@.len() - i,
        {
            let a = self.data[i];
            let b = other.data[i];
            assert(i32::MIN <= old(self)@[i as int] * other@[i as int] <= i32::MAX);
            self.data.set(i, a * b);
            i = i + 1;
        }
    }
}

} // verus!
