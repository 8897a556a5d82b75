//! Fixed-size rectangular storage, addressed by coordinate in row-major order.
use vstd::prelude::*;
use crate::geometry::{in_grid, Coordinate};

verus! {

/// The owner of a wall segment, or its absence.
#[derive(Clone, Copy, Debug, PartialEq, Eq, Structural)]
pub enum Cell {
    Empty,
    Blue,
    Green,
}

impl Cell {
    pub fn is_empty(&self) -> (r: bool)
        ensures
            r == (*self == Cell::Empty),
    {
        match self {
            Cell::Empty => true,
            _ => false,
        }
    }
}

/// Number of `true` entries of a sequence.
pub open spec fn count_true(s: Seq<bool>) -> nat
    decreases s.len(),
{
    if s.len() == 0 {
        0
    } else {
        count_true(s.drop_last()) + if s.last() {
            1nat
        } else {
            0nat
        }
    }
}

pub proof fn lemma_count_true_bound(s: Seq<bool>)
    ensures
        count_true(s) <= s.len(),
    decreases s.len(),
{
    if s.len() > 0 {
        lemma_count_true_bound(s.drop_last());
    }
}

/// Setting a `false` entry to `true` adds one to the count.
pub proof fn lemma_count_true_mark(s: Seq<bool>, i: int)
    requires
        0 <= i < s.len(),
        !s[i],
    ensures
        count_true(s.update(i, true)) == count_true(s) + 1,
    decreases s.len(),
{
    let t = s.update(i, true);
    if i == s.len() - 1 {
        assert(t.drop_last() =~= s.drop_last());
    } else {
        assert(t.drop_last() =~= s.drop_last().update(i, true));
        lemma_count_true_mark(s.drop_last(), i);
    }
}

/// A sequence of `false` counts zero.
pub proof fn lemma_count_true_none(s: Seq<bool>)
    requires
        forall|i: int| 0 <= i < s.len() ==> !s[i],
    ensures
        count_true(s) == 0,
    decreases s.len(),
{
    if s.len() > 0 {
        lemma_count_true_none(s.drop_last());
    }
}

/// Row-major position of `(x, y)` on a grid `w` columns wide.
pub open spec fn flat_index(w: int, x: int, y: int) -> int {
    y * w + x
}

pub proof fn lemma_flat_index(w: int, h: int, x: int, y: int)
    requires
        in_grid(x, y, w, h),
    ensures
        0 <= flat_index(w, x, y) < w * h,
{
    assert(0 <= y * w) by (nonlinear_arith)
        requires
            0 <= y,
            0 <= w,
    ;
    assert(y * w + x < w * h) by (nonlinear_arith)
        requires
            0 <= y < h,
            0 <= x < w,
    ;
}

pub proof fn lemma_flat_index_injective(w: int, h: int, x1: int, y1: int, x2: int, y2: int)
    requires
        in_grid(x1, y1, w, h),
        in_grid(x2, y2, w, h),
        flat_index(w, x1, y1) == flat_index(w, x2, y2),
    ensures
        x1 == x2 && y1 == y2,
{
    if y1 < y2 {
        assert(y1 * w + w <= y2 * w) by (nonlinear_arith)
            requires
                y1 < y2,
                0 <= w,
        ;
    } else if y2 < y1 {
        assert(y2 * w + w <= y1 * w) by (nonlinear_arith)
            requires
                y2 < y1,
                0 <= w,
        ;
    }
}

/// A `height` by `width` matrix stored row by row.
pub struct Board<T> {
    pub width: i32,
    pub height: i32,
    pub cells: Vec<T>,
}

impl<T> View for Board<T> {
    type V = Seq<T>;

    open spec fn view(&self) -> Seq<T> {
        self.cells@
    }
}

impl<T: Copy> Board<T> {
    pub open spec fn wf(&self) -> bool {
        &&& 0 <= self.width
        &&& 0 <= self.height
        &&& self.width * self.height <= i32::MAX
        &&& self.cells@.len() == self.width * self.height
    }

    pub open spec fn spec_inside(&self, x: int, y: int) -> bool {
        in_grid(x, y, self.width as int, self.height as int)
    }

    /// The entry at column `x`, row `y`.
    pub open spec fn at(&self, x: int, y: int) -> T {
        self.cells@[flat_index(self.width as int, x, y)]
    }

    /// A board whose every entry is `default`.
    pub fn new(width: i32, height: i32, default: T) -> (r: Board<T>)
        requires
            0 <= width,
            0 <= height,
            width * height <= i32::MAX,
        ensures
            r.wf(),
            r.width == width,
            r.height == height,
            forall|i: int| 0 <= i < r@.len() ==> r@[i] == default,
    {
        assert(0 <= width * height) by (nonlinear_arith)
            requires
                0 <= width,
                0 <= height,
        ;
        let n = (width * height) as usize;
        let mut cells: Vec<T> = Vec::new();
        while cells.len() < n
            invariant
                cells@.len() <= n,
                forall|i: int| 0 <= i < cells@.len() ==> cells@[i] == default,
            decreases n - cells@.len(),
        {
            cells.push(default);
        }
        Board { width, height, cells }
    }

    pub fn index(&self, coordinate: Coordinate) -> (r: usize)
        requires
            self.wf(),
            self.spec_inside(coordinate.x as int, coordinate.y as int),
        ensures
            r == flat_index(self.width as int, coordinate.x as int, coordinate.y as int),
            r < self@.len(),
    {
        proof {
            lemma_flat_index(
                self.width as int,
                self.height as int,
                coordinate.x as int,
                coordinate.y as int,
            );
        }
        (coordinate.y * self.width + coordinate.x) as usize
    }

    /// The entry at `coordinate`, which must lie on the board.
    pub fn get(&self, coordinate: Coordinate) -> (r: &T)
        requires
            self.wf(),
            self.spec_inside(coordinate.x as int, coordinate.y as int),
        ensures
            *r == self.at(coordinate.x as int, coordinate.y as int),
    {
        let i = self.index(coordinate);
        &self.cells[i]
    }

    /// Overwrites the entry at `coordinate`, which must lie on the board.
    pub fn set(&mut self, coordinate: Coordinate, value: T)
        requires
            old(self).wf(),
            old(self).spec_inside(coordinate.x as int, coordinate.y as int),
        ensures
            final(self).wf(),
            final(self).width == old(self).width,
            final(self).height == old(self).height,
            final(self)@ == old(self)@.update(
                flat_index(old(self).width as int, coordinate.x as int, coordinate.y as int),
                value,
            ),
            final(self).at(coordinate.x as int, coordinate.y as int) == value,
            forall|x: int, y: int|
                #![trigger final(self).at(x, y)]
                old(self).spec_inside(x, y) && !(x == coordinate.x && y == coordinate.y)
                    ==> final(self).at(x, y) == old(self).at(x, y),
    {
        let i = self.index(coordinate);
        self.cells.set(i, value);
        proof {
            assert forall|x: int, y: int|
                #![trigger self.at(x, y)]
                old(self).spec_inside(x, y) && !(x == coordinate.x && y == coordinate.y)
                    implies self.at(x, y) == old(self).at(x, y) by {
                lemma_flat_index(self.width as int, self.height as int, x, y);
                if flat_index(self.width as int, x, y) == i {
                    lemma_flat_index_injective(
                        self.width as int,
                        self.height as int,
                        x,
                        y,
                        coordinate.x as int,
                        coordinate.y as int,
                    );
                }
            }
        }
    }

    /// Overwrites every entry with `value`.
    pub fn fill(&mut self, value: T)
        requires
            old(self).wf(),
        ensures
            final(self).wf(),
            final(self).width == old(self).width,
            final(self).height == old(self).height,
            forall|i: int| 0 <= i < final(self)@.len() ==> final(self)@[i] == value,
    {
        let n = self.cells.len();
        let mut i: usize = 0;
        while i < n
            invariant
                self.wf(),
                self.width == old(self).width,
                self.height == old(self).height,
                n == self@.len(),
                i <= n,
                forall|j: int| 0 <= j < i ==> self@[j] == value,
            decreases n - i,
        {
            self.cells.set(i, value);
            i = i + 1;
        }
    }
}

impl<T: Copy> Board<T> {
    /// The entries row by row.
    pub fn to_rows(&self) -> (r: Vec<Vec<T>>)
        requires
            self.wf(),
        ensures
            r@.len() == self.height,
            forall|y: int| 0 <= y < self.height ==> (#[trigger] r@[y])@.len() == self.width,
            forall|x: int, y: int| self.spec_inside(x, y) ==> r@[y]@[x] == self.at(x, y),
    {
        let mut rows: Vec<Vec<T>> = Vec::new();
        let mut y: i32 = 0;
        while y < self.height
            invariant
                self.wf(),
                0 <= y <= self.height,
                rows@.len() == y,
                forall|yy: int| 0 <= yy < y ==> (#[trigger] rows@[yy])@.len() == self.width,
                forall|x: int, yy: int|
                    0 <= yy < y && 0 <= x < self.width ==> rows@[yy]@[x] == self.at(x, yy),
            decreases self.height - y,
        {
            let mut row: Vec<T> = Vec::new();
            let mut x: i32 = 0;
            while x < self.width
                invariant
                    self.wf(),
                    0 <= y < self.height,
                    0 <= x <= self.width,
                    row@.len() == x,
                    forall|xx: int| 0 <= xx < x ==> row@[xx] == self.at(xx, y as int),
                decreases self.width - x,
            {
                row.push(*self.get(Coordinate::new(x, y)));
                x = x + 1;
            }
            rows.push(row);
            y = y + 1;
        }
        rows
    }
}

impl Board<bool> {
    /// Number of `true` entries.
    pub fn total(&self) -> (r: usize)
        ensures
            r == count_true(self@),
    {
        let mut count: usize = 0;
        let mut i: usize = 0;
        while i < self.cells.len()
            invariant
                i <= self@.len(),
                count == count_true(self@.subrange(0, i as int)),
            decreases self@.len() - i,
        {
            proof {
                assert(self@.subrange(0, i + 1).drop_last() =~= self@.subrange(0, i as int));
                lemma_count_true_bound(self@.subrange(0, i as int));
            }
            if self.cells[i] {
                count = count + 1;
            }
            i = i + 1;
        }
        assert(self@.subrange(0, self@.len() as int) =~= self@);
        count
    }

    /// Sets every entry to `false`.
    pub fn clear(&mut self)
        requires
            old(self).wf(),
        ensures
            final(self).wf(),
            final(self).width == old(self).width,
            final(self).height == old(self).height,
            forall|i: int| 0 <= i < final(self)@.len() ==> !final(self)@[i],
            count_true(final(self)@) == 0,
    {
        self.fill(false);
        proof {
            lemma_count_true_none(self@);
        }
    }
}

impl Board<i32> {
    /// Sets every entry to `-1`, the mark of a cell not reached.
    pub fn clear(&mut self)
        requires
            old(self).wf(),
        ensures
            final(self).wf(),
            final(self).width == old(self).width,
            final(self).height == old(self).height,
            forall|i: int| 0 <= i < final(self)@.len() ==> final(self)@[i] == -1,
    {
        self.fill(-1);
    }
}

impl Board<Cell> {
    /// Removes every wall segment.
    pub fn clear(&mut self)
        requires
            old(self).wf(),
        ensures
            final(self).wf(),
            final(self).width == old(self).width,
            final(self).height == old(self).height,
            forall|i: int| 0 <= i < final(self)@.len() ==> final(self)@[i] == Cell::Empty,
    {
        self.fill(Cell::Empty);
    }

    /// Whether each segment holds a wall, row by row.
    pub fn to_bool(&self) -> (r: Vec<Vec<bool>>)
        requires
            self.wf(),
        ensures
            r@.len() == self.height,
            forall|y: int|
                0 <= y < self.height ==> (#[trigger] r@[y])@.len() == self.width,
            forall|x: int, y: int|
                self.spec_inside(x, y) ==> r@[y]@[x] == (self.at(x, y) != Cell::Empty),
    {
        let mut rows: Vec<Vec<bool>> = Vec::new();
        let mut y: i32 = 0;
        while y < self.height
            invariant
                self.wf(),
                0 <= y <= self.height,
                rows@.len() == y,
                forall|yy: int| 0 <= yy < y ==> (#[trigger] rows@[yy])@.len() == self.width,
                forall|x: int, yy: int|
                    0 <= yy < y && 0 <= x < self.width ==> rows@[yy]@[x] == (self.at(x, yy)
                        != Cell::Empty),
            decreases self.height - y,
        {
            let mut row: Vec<bool> = Vec::new();
            let mut x: i32 = 0;
            while x < self.width
                invariant
                    self.wf(),
                    0 <= y < self.height,
                    0 <= x <= self.width,
                    row@.len() == x,
                    forall|xx: int| 0 <= xx < x ==> row@[xx] == (self.at(xx, y as int) != Cell::Empty),
                decreases self.width - x,
            {
                let c = *self.get(Coordinate::new(x, y));
                row.push(!c.is_empty());
                x = x + 1;
            }
            rows.push(row);
            y = y + 1;
        }
        rows
    }
}

} // verus!
