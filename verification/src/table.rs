//! A generic dense two-dimensional table with total bounds checking.

use vstd::prelude::*;

verus! {

/// Row-major index of `(x, y)` stays below `w * h`.
pub proof fn lemma_row_major_index_bound(x: int, y: int, w: int, h: int)
    by (nonlinear_arith)
    requires
        0 <= x < w,
        0 <= y < h,
    ensures
        0 <= y * w + x < w * h,
{
}

/// Distinct in-range coordinate pairs get distinct row-major indices.
pub proof fn lemma_row_major_index_injective(x1: int, y1: int, x2: int, y2: int, w: int)
    by (nonlinear_arith)
    requires
        0 <= x1 < w,
        0 <= x2 < w,
        0 <= y1,
        0 <= y2,
    ensures
        (y1 * w + x1 == y2 * w + x2) <==> (x1 == x2 && y1 == y2),
{
}

/// A dense `width x height` table of cells, stored row-major.
///
/// Coordinates outside `[0, width) x [0, height)` — including the huge
/// values produced by wrap-around arithmetic on unsigned coordinates —
/// are rejected by `get`/`set`, which never panic.
#[derive(Debug, Clone, PartialEq, Eq, Hash)]
pub struct Table<T> {
    width: usize,
    height: usize,
    mem: Vec<T>,
}

impl<T> Table<T> {
    pub closed spec fn spec_width(self) -> int {
        self.width as int
    }

    pub closed spec fn spec_height(self) -> int {
        self.height as int
    }

    /// Storage invariant: exactly one cell per coordinate pair.
    pub closed spec fn wf(self) -> bool {
        self.mem.len() == self.width * self.height
    }

    /// The cell stored at `(x, y)`.
    pub closed spec fn at(self, x: int, y: int) -> T
        recommends
            self.wf(),
            self.in_bounds(x, y),
    {
        self.mem@[y * self.spec_width() + x]
    }

    pub open spec fn in_bounds(self, x: int, y: int) -> bool {
        0 <= x < self.spec_width() && 0 <= y < self.spec_height()
    }

    pub open spec fn same_dims(self, other: Self) -> bool {
        self.spec_width() == other.spec_width() && self.spec_height() == other.spec_height()
    }

    /// The cell count of a well-formed table fits in `usize`.
    pub proof fn lemma_size_bound(self)
        requires
            self.wf(),
        ensures
            self.spec_width() * self.spec_height() <= usize::MAX,
    {
    }

    /// Each dimension is a machine integer.
    pub proof fn lemma_dims_in_range(self)
        ensures
            0 <= self.spec_width() <= usize::MAX,
            0 <= self.spec_height() <= usize::MAX,
    {
    }

    fn from_raw_parts(width: usize, height: usize, mem: Vec<T>) -> (r: Self)
        requires
            mem.len() == width * height,
        ensures
            r.wf(),
            r.spec_width() == width,
            r.spec_height() == height,
            forall|x: int, y: int| r.in_bounds(x, y) ==> r.at(x, y) == mem@[y * width + x],
    {
        Table { width, height, mem }
    }

    pub fn new() -> (r: Self)
        ensures
            r.wf(),
            r.spec_width() == 0,
            r.spec_height() == 0,
    {
        Self::from_raw_parts(0, 0, Vec::new())
    }

    pub fn width(&self) -> (r: usize)
        ensures
            r == self.spec_width(),
    {
        self.width
    }

    pub fn height(&self) -> (r: usize)
        ensures
            r == self.spec_height(),
    {
        self.height
    }

    fn xy_to_idx(&self, x: usize, y: usize) -> (r: Option<usize>)
        requires
            self.wf(),
        ensures
            match r {
                Some(i) => self.in_bounds(x as int, y as int) && i == y * self.spec_width() + x
                    && i < self.mem@.len(),
                None => !self.in_bounds(x as int, y as int),
            },
    {
        if x >= self.width {
            return None;
        }
        if y >= self.height {
            return None;
        }
        proof {
            lemma_row_major_index_bound(x as int, y as int, self.spec_width(), self.spec_height());
        }
        Some(self.width * y + x)
    }

    pub fn get(&self, x: usize, y: usize) -> (r: Option<&T>)
        requires
            self.wf(),
        ensures
            match r {
                Some(v) => self.in_bounds(x as int, y as int) && *v == self.at(x as int, y as int),
                None => !self.in_bounds(x as int, y as int),
            },
    {
        match self.xy_to_idx(x, y) {
            Some(idx) => Some(&self.mem[idx]),
            None => None,
        }
    }

    pub fn get_mut(&mut self, x: usize, y: usize) -> (r: Option<&mut T>)
        requires
            old(self).wf(),
        ensures
            final(self).wf(),
            final(self).same_dims(*old(self)),
            match r {
                Some(m) => {
                    &&& old(self).in_bounds(x as int, y as int)
                    &&& *m == old(self).at(x as int, y as int)
                    &&& forall|i: int, j: int| #![trigger final(self).at(i, j)]
                        final(self).in_bounds(i, j) ==> final(self).at(i, j)
                            == (if i == x as int && j == y as int { *final(m) } else { old(self).at(i, j) })
                },
                None => !old(self).in_bounds(x as int, y as int) && *final(self) == *old(self),
            },
    {
        match self.xy_to_idx(x, y) {
            Some(idx) => {
                let ghost snap = *self;
                proof {
                    assert forall|i: int, j: int|
                        snap.in_bounds(i, j) && !(i == x as int && j == y as int)
                        implies j * snap.spec_width() + i != y * snap.spec_width() + x by {
                        lemma_row_major_index_injective(i, j, x as int, y as int, snap.spec_width());
                    }
                    assert forall|i: int, j: int| snap.in_bounds(i, j)
                        implies 0 <= #[trigger] (j * snap.spec_width() + i) < snap.mem@.len() by {
                        lemma_row_major_index_bound(i, j, snap.spec_width(), snap.spec_height());
                    }
                }
                Some(&mut self.mem[idx])
            },
            None => None,
        }
    }

    pub fn set(&mut self, x: usize, y: usize, v: T)
        requires
            old(self).wf(),
        ensures
            final(self).wf(),
            final(self).same_dims(*old(self)),
            old(self).in_bounds(x as int, y as int) ==> forall|i: int, j: int|
                #![trigger final(self).at(i, j)]
                final(self).in_bounds(i, j) ==> final(self).at(i, j)
                    == (if i == x as int && j == y as int { v } else { old(self).at(i, j) }),
            !old(self).in_bounds(x as int, y as int) ==> *final(self) == *old(self),
    {
        match self.get_mut(x, y) {
            Some(r) => {
                *r = v;
            },
            None => {},
        }
    }
}

impl<T: Copy> Table<T> {
    pub fn new_filled_with(width: usize, height: usize, v: T) -> (r: Self)
        requires
            width * height <= usize::MAX,
        ensures
            r.wf(),
            r.spec_width() == width,
            r.spec_height() == height,
            forall|x: int, y: int| r.in_bounds(x, y) ==> r.at(x, y) == v,
    {
        let n = width * height;
        let mut mem: Vec<T> = Vec::new();
        let mut i: usize = 0;
        while i < n
            invariant
                i <= n,
                mem.len() == i,
                forall|k: int| 0 <= k < i ==> mem@[k] == v,
            decreases n - i,
        {
            mem.push(v);
            i = i + 1;
        }
        proof {
            assert forall|x: int, y: int| 0 <= x < width && 0 <= y < height
                implies 0 <= #[trigger] (y * width + x) < mem@.len() by {
                lemma_row_major_index_bound(x, y, width as int, height as int);
            }
        }
        Self::from_raw_parts(width, height, mem)
    }

    pub fn fill(&mut self, v: T)
        requires
            old(self).wf(),
        ensures
            final(self).wf(),
            final(self).same_dims(*old(self)),
            forall|x: int, y: int| #![trigger final(self).at(x, y)]
                final(self).in_bounds(x, y) ==> final(self).at(x, y) == v,
    {
        let w = self.width;
        let h = self.height;
        *self = Self::new_filled_with(w, h, v);
    }

    /// Reallocates to `width x height` cells all holding `v`; prior contents
    /// are not preserved.
    pub fn resize_with(&mut self, width: usize, height: usize, v: T)
        requires
            width * height <= usize::MAX,
        ensures
            final(self).wf(),
            final(self).spec_width() == width,
            final(self).spec_height() == height,
            forall|x: int, y: int| #![trigger final(self).at(x, y)]
                final(self).in_bounds(x, y) ==> final(self).at(x, y) == v,
    {
        *self = Self::new_filled_with(width, height, v);
    }
}

impl<T: Default> Table<T> {
    pub fn new_filled(width: usize, height: usize) -> (r: Self)
        requires
            width * height <= usize::MAX,
        ensures
            r.wf(),
            r.spec_width() == width,
            r.spec_height() == height,
            forall|x: int, y: int| #![trigger r.at(x, y)]
                r.in_bounds(x, y) ==> call_ensures(T::default, (), r.at(x, y)),
    {
        let n = width * height;
        let mut mem: Vec<T> = Vec::new();
        let mut i: usize = 0;
        while i < n
            invariant
                i <= n,
                mem.len() == i,
                forall|k: int| 0 <= k < i ==> call_ensures(T::default, (), #[trigger] mem@[k]),
            decreases n - i,
        {
            mem.push(T::default());
            i = i + 1;
        }
        proof {
            assert forall|x: int, y: int| 0 <= x < width && 0 <= y < height
                implies 0 <= #[trigger] (y * width + x) < mem@.len() by {
                lemma_row_major_index_bound(x, y, width as int, height as int);
            }
        }
        Self::from_raw_parts(width, height, mem)
    }

    /// Overwrites every cell with a freshly constructed default value.
    pub fn reset(&mut self)
        requires
            old(self).wf(),
        ensures
            final(self).wf(),
            final(self).same_dims(*old(self)),
            forall|x: int, y: int| #![trigger final(self).at(x, y)]
                final(self).in_bounds(x, y) ==> call_ensures(T::default, (), final(self).at(x, y)),
    {
        let w = self.width;
        let h = self.height;
        proof {
            assert(w * h <= usize::MAX) by {
                assert(old(self).mem.len() == w * h);
            }
        }
        *self = Self::new_filled(w, h);
    }

    /// Reallocates to `width x height` default-valued cells; prior contents
    /// are not preserved.
    pub fn resize(&mut self, width: usize, height: usize)
        requires
            width * height <= usize::MAX,
        ensures
            final(self).wf(),
            final(self).spec_width() == width,
            final(self).spec_height() == height,
            forall|x: int, y: int| #![trigger final(self).at(x, y)]
                final(self).in_bounds(x, y) ==> call_ensures(T::default, (), final(self).at(x, y)),
    {
        *self = Self::new_filled(width, height);
    }
}

} // verus!
