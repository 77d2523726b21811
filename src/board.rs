use vstd::prelude::*;

verus! {

/// A fixed-size, row-major grid: the cell at column `x` and row `y` is stored
/// at position `x + y * width`.
pub struct Board<T> {
    width: usize,
    height: usize,
    data: Vec<T>,
}

impl<T> Board<T> {
    pub closed spec fn spec_width(&self) -> nat {
        self.width as nat
    }

    pub closed spec fn spec_height(&self) -> nat {
        self.height as nat
    }

    /// The cells in row-major order.
    pub closed spec fn cells(&self) -> Seq<T> {
        self.data@
    }

    pub open spec fn wf(&self) -> bool {
        &&& self.cells().len() == self.spec_width() * self.spec_height()
        &&& self.spec_width() * self.spec_height() <= usize::MAX
    }

    pub open spec fn in_bounds(&self, x: int, y: int) -> bool {
        0 <= x < self.spec_width() && 0 <= y < self.spec_height()
    }

    pub open spec fn index_of(&self, x: int, y: int) -> int {
        x + y * self.spec_width()
    }

    pub open spec fn at(&self, x: int, y: int) -> T {
        self.cells()[self.index_of(x, y)]
    }

    pub proof fn lemma_index_in_range(&self, x: int, y: int)
        requires
            self.wf(),
            self.in_bounds(x, y),
        ensures
            0 <= self.index_of(x, y) < self.cells().len(),
            0 <= y * self.spec_width() <= self.index_of(x, y),
    {
        let w = self.spec_width() as int;
        let h = self.spec_height() as int;
        assert(x + y * w < w * h) by (nonlinear_arith)
            requires
                0 <= x < w,
                0 <= y < h,
        ;
        assert(0 <= y * w) by (nonlinear_arith)
            requires
                0 <= y,
                0 <= w,
        ;
    }

    /// Distinct cells inside the grid are stored at distinct positions.
    pub proof fn lemma_index_injective(&self, x1: int, y1: int, x2: int, y2: int)
        requires
            self.in_bounds(x1, y1),
            self.in_bounds(x2, y2),
            x1 != x2 || y1 != y2,
        ensures
            self.index_of(x1, y1) != self.index_of(x2, y2),
    {
        let w = self.spec_width() as int;
        if y1 < y2 {
            assert(y1 * w + w <= y2 * w) by (nonlinear_arith)
                requires
                    y1 < y2,
                    0 <= w,
            ;
        } else if y2 < y1 {
            assert(y2 * w + w <= y1 * w) by (nonlinear_arith)
                requires
                    y2 < y1,
                    0 <= w,
            ;
        }
    }

    /// A grid of `width` columns and `height` rows, every cell holding `T::default()`.
    pub fn new(width: usize, height: usize) -> (r: Self)
        where
            T: Default + Clone,
        requires
            width * height <= usize::MAX,
        ensures
            r.wf(),
            r.spec_width() == width,
            r.spec_height() == height,
            forall|i: int|
                0 <= i < r.cells().len() ==> call_ensures(T::default, (), #[trigger] r.cells()[i]),
    {
        let n = width * height;
        let mut data: Vec<T> = Vec::with_capacity(n);
        let mut i: usize = 0;
        while i < n
            invariant
                i <= n,
                data@.len() == i,
                forall|j: int| 0 <= j < i ==> call_ensures(T::default, (), #[trigger] data@[j]),
            decreases n - i,
        {
            data.push(T::default());
            i = i + 1;
        }
        Board { width, height, data }
    }

    /// The cell at (`x`, `y`), which must lie inside the grid.
    pub fn get_mut(&mut self, x: usize, y: usize) -> (r: &mut T)
        requires
            old(self).wf(),
            old(self).in_bounds(x as int, y as int),
        ensures
            *r == old(self).at(x as int, y as int),
            final(self).spec_width() == old(self).spec_width(),
            final(self).spec_height() == old(self).spec_height(),
            final(self).cells() == old(self).cells().update(
                old(self).index_of(x as int, y as int),
                *final(r),
            ),
    {
        proof {
            self.lemma_index_in_range(x as int, y as int);
        }
        &mut self.data[x + y * self.width]
    }

    /// The cell at (`x`, `y`), which must lie inside the grid.
    pub fn get(&self, x: usize, y: usize) -> (r: &T)
        requires
            self.wf(),
            self.in_bounds(x as int, y as int),
        ensures
            *r == self.at(x as int, y as int),
    {
        proof {
            self.lemma_index_in_range(x as int, y as int);
        }
        &self.data[x + y * self.width]
    }

    /// Overwrites the cell at (`x`, `y`), which must lie inside the grid.
    pub fn set(&mut self, x: usize, y: usize, val: T)
        requires
            old(self).wf(),
            old(self).in_bounds(x as int, y as int),
        ensures
            final(self).wf(),
            final(self).spec_width() == old(self).spec_width(),
            final(self).spec_height() == old(self).spec_height(),
            final(self).cells() == old(self).cells().update(old(self).index_of(x as int, y as int), val),
    {
        proof {
            self.lemma_index_in_range(x as int, y as int);
        }
        let i = x + y * self.width;
        self.data.set(i, val);
    }

    pub fn get_width(&self) -> (r: usize)
        ensures
            r == self.spec_width(),
    {
        self.width
    }

    pub fn get_height(&self) -> (r: usize)
        ensures
            r == self.spec_height(),
    {
        self.height
    }
}

} // verus!
