//! A row-major grid of values with a fixed width.

use vstd::prelude::*;
use vstd::slice::slice_subrange;
use crate::arith::{lemma_div_parts, lemma_div_unique};

verus! {

/// The place of column `x` of row `y` in the buffer of a grid of `width` columns.
pub closed spec fn place(width: int, x: int, y: int) -> int {
    y * width + x
}

/// A grid stored row after row in one buffer.
#[derive(Clone, Debug)]
pub struct Data2D<T> {
    buffer: Vec<T>,
    width: usize,
}

impl<T> Data2D<T> {
    /// The buffer holds a whole number of rows.
    pub closed spec fn wf(&self) -> bool {
        if self.width == 0 {
            self.buffer.len() == 0
        } else {
            (self.buffer.len() as int) % (self.width as int) == 0
        }
    }

    /// The number of columns.
    pub closed spec fn cols(&self) -> int {
        self.width as int
    }

    /// The number of rows; a grid without columns has none.
    pub closed spec fn lines(&self) -> int {
        if self.width == 0 {
            0
        } else {
            (self.buffer.len() as int) / (self.width as int)
        }
    }

    /// The value in column `x` of row `y`.
    pub closed spec fn cell(&self, x: int, y: int) -> T {
        self.buffer@[place(self.width as int, x, y)]
    }

    /// Row `y`, from left to right.
    pub open spec fn row(&self, y: int) -> Seq<T> {
        Seq::new(self.cols() as nat, |x: int| self.cell(x, y))
    }

    /// All rows, from the first to the last.
    pub open spec fn rows(&self) -> Seq<Seq<T>> {
        Seq::new(self.lines() as nat, |y: int| self.row(y))
    }

    /// Both dimensions are never negative, and their product is the buffer's length.
    pub proof fn lemma_dimensions(&self)
        requires
            self.wf(),
        ensures
            0 <= self.cols() <= usize::MAX,
            0 <= self.lines() <= usize::MAX,
            0 <= self.cols() * self.lines() <= usize::MAX,
    {
        if self.width != 0 {
            lemma_div_parts(self.buffer.len() as int, self.width as int);
            assert(self.cols() * self.lines() == self.buffer.len()) by (nonlinear_arith)
                requires
                    self.buffer.len() == self.lines() * self.cols() + 0,
            ;
        } else {
            assert(self.cols() * self.lines() == 0);
        }
    }

    proof fn lemma_offset(&self, x: int, y: int)
        requires
            self.wf(),
            0 <= x < self.cols(),
            0 <= y < self.lines(),
        ensures
            0 <= y * self.width + x < self.buffer.len(),
            (y + 1) * self.width <= self.buffer.len(),
            0 <= y * self.width,
    {
        let w = self.width as int;
        let len = self.buffer.len() as int;
        lemma_div_parts(len, w);
        assert(0 <= y * w && y * w + x < len && (y + 1) * w <= len) by (nonlinear_arith)
            requires
                len == (len / w) * w + 0,
                0 <= y < len / w,
                0 <= x < w,
        ;
    }

    /// The cell in column `idx[0]` of row `idx[1]`.
    pub fn index(&self, idx: [usize; 2]) -> (r: &T)
        requires
            self.wf(),
            idx[0] < self.cols(),
            idx[1] < self.lines(),
        ensures
            *r == self.cell(idx[0] as int, idx[1] as int),
    {
        proof {
            self.lemma_offset(idx[0] as int, idx[1] as int);
        }
        &self.buffer[idx[1] * self.width + idx[0]]
    }

    /// The cell in column `idx[0]` of row `idx[1]`, to be written to.
    pub fn index_mut(&mut self, idx: [usize; 2]) -> (r: &mut T)
        requires
            old(self).wf(),
            idx[0] < old(self).cols(),
            idx[1] < old(self).lines(),
        ensures
            *r == old(self).cell(idx[0] as int, idx[1] as int),
            final(self).wf(),
            final(self).cols() == old(self).cols(),
            final(self).lines() == old(self).lines(),
            final(self).cell(idx[0] as int, idx[1] as int) == *final(r),
            forall|i: int, j: int|
                0 <= i < old(self).cols() && 0 <= j < old(self).lines() && (i != idx[0] || j
                    != idx[1]) ==> final(self).cell(i, j) == old(self).cell(i, j),
    {
        proof {
            self.lemma_offset(idx[0] as int, idx[1] as int);
            let w = self.width as int;
            assert forall|i: int, j: int|
                0 <= i < self.cols() && 0 <= j < self.lines() && (i != idx[0] || j != idx[1])
                implies #[trigger] place(w, i, j) != place(w, idx[0] as int, idx[1] as int) && 0
                <= place(w, i, j) < self.buffer.len() by {
                self.lemma_offset(i, j);
                assert(j * w + i != idx[1] * w + idx[0]) by (nonlinear_arith)
                    requires
                        0 <= i < w,
                        0 <= idx[0] < w,
                        i != idx[0] || j != idx[1],
                ;
            }
        }
        &mut self.buffer[idx[1] * self.width + idx[0]]
    }

    /// Stores `data` in column `x` of row `y` and leaves every other cell as it was.
    pub fn insert(&mut self, x: usize, y: usize, data: T)
        requires
            old(self).wf(),
            x < old(self).cols(),
            y < old(self).lines(),
        ensures
            final(self).wf(),
            final(self).cols() == old(self).cols(),
            final(self).lines() == old(self).lines(),
            final(self).cell(x as int, y as int) == data,
            forall|i: int, j: int|
                0 <= i < old(self).cols() && 0 <= j < old(self).lines() && (i != x || j != y)
                    ==> final(self).cell(i, j) == old(self).cell(i, j),
    {
        proof {
            self.lemma_offset(x as int, y as int);
        }
        let at: usize = y * self.width + x;
        let ghost before = *self;
        self.buffer[at] = data;
        proof {
            assert forall|i: int, j: int|
                0 <= i < before.cols() && 0 <= j < before.lines() && (i != x || j != y)
                implies self.cell(i, j) == before.cell(i, j) by {
                before.lemma_offset(i, j);
                let w = self.width as int;
                assert(j * w + i != y * w + x) by (nonlinear_arith)
                    requires
                        0 <= i < w,
                        0 <= x < w,
                        i != x || j != y,
                ;
            }
        }
    }

    /// The number of columns.
    pub fn width(&self) -> (r: usize)
        ensures
            r == self.cols(),
    {
        self.width
    }

    /// The number of rows.
    pub fn height(&self) -> (r: usize)
        ensures
            r == self.lines(),
    {
        if self.width == 0 {
            0
        } else {
            self.buffer.len() / self.width
        }
    }

    /// The cell in column `idx[0]` of row `idx[1]`, if the grid has one there.
    pub fn get(&self, idx: [usize; 2]) -> (r: Option<&T>)
        requires
            self.wf(),
        ensures
            r is Some <==> idx[0] < self.cols() && idx[1] < self.lines(),
            r matches Some(v) ==> *v == self.cell(idx[0] as int, idx[1] as int),
    {
        let x: usize = idx[0];
        let y: usize = idx[1];
        if x < self.width && y < self.height() {
            proof {
                self.lemma_offset(x as int, y as int);
            }
            Some(&self.buffer[y * self.width + x])
        } else {
            None
        }
    }

    /// The rows of the grid, from the first to the last.
    pub fn iter(&self) -> (r: Vec<&[T]>)
        requires
            self.wf(),
        ensures
            r@.len() == self.lines(),
            forall|y: int| 0 <= y < self.lines() ==> (#[trigger] r@[y])@ == self.row(y),
    {
        let height: usize = self.height();
        let mut out: Vec<&[T]> = Vec::new();
        let mut y: usize = 0;
        while y < height
            invariant
                self.wf(),
                height == self.lines(),
                y <= height,
                out@.len() == y,
                forall|k: int| 0 <= k < y ==> (#[trigger] out@[k])@ == self.row(k),
            decreases height - y,
        {
            proof {
                assert(self.width > 0);
                self.lemma_offset(0, y as int);
                assert((y + 1) * self.width == y * self.width + self.width) by (nonlinear_arith);
            }
            let from: usize = y * self.width;
            let row: &[T] = slice_subrange(self.buffer.as_slice(), from, from + self.width);
            proof {
                assert(row@ =~= self.row(y as int));
            }
            out.push(row);
            y = y + 1;
        }
        out
    }
}

impl<T: Copy> Data2D<T> {
    /// A copy of the grid.
    pub fn duplicate(&self) -> (r: Self)
        requires
            self.wf(),
        ensures
            r.wf(),
            r.cols() == self.cols(),
            r.lines() == self.lines(),
            r.rows() == self.rows(),
    {
        let count: usize = self.buffer.len();
        let mut buffer: Vec<T> = Vec::new();
        let mut i: usize = 0;
        while i < count
            invariant
                count == self.buffer@.len(),
                i <= count,
                buffer@.len() == i,
                forall|k: int| 0 <= k < i ==> buffer@[k] == self.buffer@[k],
            decreases count - i,
        {
            buffer.push(self.buffer[i]);
            i = i + 1;
        }
        let copy = Data2D { buffer, width: self.width };
        proof {
            assert(copy.buffer@ =~= self.buffer@);
            assert forall|y: int| 0 <= y < self.lines() implies #[trigger] copy.row(y)
                =~= self.row(y) by {
                assert forall|x: int| 0 <= x < self.cols() implies copy.cell(x, y) == self.cell(
                    x,
                    y,
                ) by {
                    self.lemma_offset(x, y);
                }
            }
            assert(copy.rows() =~= self.rows());
        }
        copy
    }

    /// A grid of `width` columns and `height` rows with `same` in every cell.
    pub fn new_same(width: usize, height: usize, same: T) -> (r: Self)
        requires
            width * height <= usize::MAX,
        ensures
            r.wf(),
            r.cols() == width,
            width > 0 ==> r.lines() == height,
            width == 0 ==> r.lines() == 0,
            forall|x: int, y: int| 0 <= x < r.cols() && 0 <= y < r.lines() ==> r.cell(x, y) == same,
    {
        let count: usize = width * height;
        let mut buffer: Vec<T> = Vec::new();
        let mut i: usize = 0;
        while i < count
            invariant
                i <= count,
                buffer@.len() == i,
                forall|k: int| 0 <= k < i ==> buffer@[k] == same,
            decreases count - i,
        {
            buffer.push(same);
            i = i + 1;
        }
        let grid = Data2D { buffer, width };
        proof {
            if width > 0 {
                assert(width * height == height * width) by (nonlinear_arith);
                lemma_div_unique(count as int, width as int, height as int, 0);
            }
            assert forall|x: int, y: int| 0 <= x < grid.cols() && 0 <= y < grid.lines() implies grid.cell(
                x,
                y,
            ) == same by {
                grid.lemma_offset(x, y);
            }
        }
        grid
    }
}

impl<T> Default for Data2D<T> {
    /// A grid without cells.
    fn default() -> (r: Self)
        ensures
            r.wf(),
            r.cols() == 0,
            r.lines() == 0,
    {
        Data2D { buffer: Vec::new(), width: 0 }
    }
}

} // verus!
