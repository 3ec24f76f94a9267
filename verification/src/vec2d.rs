//! A fixed-size two-dimensional container stored row by row.

use vstd::prelude::*;

verus! {

/// `width * height` items in row-major order: the item at column `x` of
/// row `y` is `undl[y * width + x]`.
#[derive(Debug)]
pub struct Vec2D<T> {
    pub width: usize,
    pub height: usize,
    pub undl: Vec<T>,
}

impl<T> Vec2D<T> {
    /// The container holds exactly `width * height` items.
    pub open spec fn wf(&self) -> bool {
        self.undl.len() == self.width * self.height
    }

    /// Whether `(x, y)` names a position of the container.
    pub open spec fn in_bounds(&self, x: int, y: int) -> bool {
        0 <= x < self.width && 0 <= y < self.height
    }

    /// The item at column `x` of row `y`.
    pub open spec fn spec_at(&self, x: int, y: int) -> T {
        self.undl@[y * self.width + x]
    }

    /// A position inside the container has its index inside the storage.
    pub proof fn lemma_index_in_range(&self, x: int, y: int)
        requires
            self.wf(),
            self.in_bounds(x, y),
        ensures
            0 <= y * self.width <= y * self.width + x < self.undl@.len(),
    {
        let w = self.width as int;
        let h = self.height as int;
        assert(y * w + x < h * w) by (nonlinear_arith)
            requires
                0 <= x < w,
                0 <= y < h,
        ;
        assert(0 <= y * w) by (nonlinear_arith)
            requires
                0 <= y,
                0 <= w,
        ;
        assert(h * w == w * h) by (nonlinear_arith);
    }

    /// Whether the container holds exactly `width * height` items.
    pub fn is_wf(&self) -> (ok: bool)
        ensures
            ok == self.wf(),
    {
        match self.width.checked_mul(self.height) {
            Some(n) => n == self.undl.len(),
            None => false,
        }
    }

    /// The item at column `x` of row `y`.
    pub fn get(&self, x: usize, y: usize) -> (r: &T)
        requires
            self.wf(),
            self.in_bounds(x as int, y as int),
        ensures
            *r == self.spec_at(x as int, y as int),
    {
        proof {
            self.lemma_index_in_range(x as int, y as int);
        }
        let idx = y * self.width + x;
        &self.undl[idx]
    }

    /// Replaces the item at column `x` of row `y`.
    pub fn set(&mut self, x: usize, y: usize, value: T)
        requires
            old(self).wf(),
            old(self).in_bounds(x as int, y as int),
        ensures
            final(self).width == old(self).width,
            final(self).height == old(self).height,
            final(self).undl@ == old(self).undl@.update(y * old(self).width + x, value),
            final(self).wf(),
    {
        proof {
            self.lemma_index_in_range(x as int, y as int);
        }
        let idx = y * self.width + x;
        self.undl[idx] = value;
    }

    /// An iterator over the items, row by row.
    pub fn iter(&self) -> (it: core::slice::Iter<'_, T>)
        ensures
            vstd::std_specs::slice::into_iter_elts(it) == self.undl@,
    {
        broadcast use vstd::std_specs::slice::axiom_spec_slice_iter;

        let it = self.undl.as_slice().iter();
        assert(vstd::std_specs::slice::into_iter_elts(it) =~= self.undl@);
        it
    }
}

impl<T: Default + Clone> Vec2D<T> {
    /// A container of the given size in which every item is a clone of one
    /// default value.
    pub fn new(width: usize, height: usize) -> (r: Vec2D<T>)
        requires
            width * height <= usize::MAX,
        ensures
            r.width == width,
            r.height == height,
            r.wf(),
            exists|d: T|
                call_ensures(T::default, (), d) && forall|i: int|
                    0 <= i < r.undl@.len() ==> cloned(d, #[trigger] r.undl@[i]),
    {
        let d = T::default();
        let undl = vec![d; width * height];
        Vec2D { width, height, undl }
    }
}

impl<T> core::ops::Index<(usize, usize)> for Vec2D<T> {
    type Output = T;

    /// The item at column `index.0` of row `index.1`.
    fn index(&self, index: (usize, usize)) -> (r: &T)
        ensures
            *r == self.spec_at(index.0 as int, index.1 as int),
    {
        self.get(index.0, index.1)
    }
}

impl<T> vstd::std_specs::core::IndexSpecImpl<(usize, usize)> for Vec2D<T> {
    open spec fn index_req(&self, index: &(usize, usize)) -> bool {
        self.wf() && self.in_bounds(index.0 as int, index.1 as int)
    }
}

impl<T> core::ops::IndexMut<(usize, usize)> for Vec2D<T> {
    /// The item at column `index.0` of row `index.1`, to be changed.
    fn index_mut(&mut self, index: (usize, usize)) -> (r: &mut T)
        requires
            old(self).wf(),
            old(self).in_bounds(index.0 as int, index.1 as int),
        ensures
            *r == old(self).spec_at(index.0 as int, index.1 as int),
            final(self).width == old(self).width,
            final(self).height == old(self).height,
            final(self).undl@ == old(self).undl@.update(
                index.1 * old(self).width + index.0,
                *final(r),
            ),
    {
        proof {
            self.lemma_index_in_range(index.0 as int, index.1 as int);
        }
        let idx = index.1 * self.width + index.0;
        &mut self.undl[idx]
    }
}

impl<T: Clone> Clone for Vec2D<T> {
    /// A container of the same size whose items are clones of this one's.
    fn clone(&self) -> (r: Self)
        ensures
            r.width == self.width,
            r.height == self.height,
            r.undl@.len() == self.undl@.len(),
            forall|i: int| 0 <= i < self.undl@.len() ==> cloned(self.undl@[i], #[trigger] r.undl@[i]),
    {
        Vec2D { width: self.width, height: self.height, undl: self.undl.clone() }
    }
}

} // verus!
