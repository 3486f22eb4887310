//! Trusted boundary to `ndarray`: the score matrix is backed by an
//! `ndarray::Array2<i32>`.
//!
//! The array is opaque to the verifier; `grid_cells` and `grid_dims` name
//! what it holds, and the trusted methods below state how the `ndarray`
//! calls the engine makes relate to those names. Everything else about the
//! matrix is proved.

use vstd::prelude::*;

verus! {

/// A 2-D integer grid: the dynamic-programming score matrix.
#[verifier::external_body]
pub struct ScoreMatrix {
    cells: ndarray::Array2<i32>,
}

/// The element a matrix holds at each (row, column) position.
pub uninterp spec fn grid_cells(g: ScoreMatrix) -> Map<(int, int), int>;

/// The (rows, columns) shape a matrix was created with.
pub uninterp spec fn grid_dims(g: ScoreMatrix) -> (int, int);

impl ScoreMatrix {
    /// Relies on `ndarray::ArrayBase::zeros`: an array of the given shape
    /// with every element zero. It panics when the element count overflows
    /// `isize`, which the precondition rules out.
    #[verifier::external_body]
    pub(crate) fn zeros(rows: usize, cols: usize) -> (g: ScoreMatrix)
        requires
            (rows as int) * (cols as int) < 0x8000_0000_0000_0000,
        ensures
            grid_dims(g) == (rows as int, cols as int),
            forall|i: int, j: int|
                0 <= i < rows && 0 <= j < cols ==> grid_cells(g)[(i, j)] == 0,
    {
        ScoreMatrix { cells: ndarray::Array2::zeros((rows, cols)) }
    }

    /// Relies on `ndarray`'s `Index<[usize; 2]>` impl: returns the element
    /// at the given row and column. It panics out of range, which the
    /// precondition rules out.
    #[verifier::external_body]
    pub(crate) fn get_cell(&self, i: usize, j: usize) -> (v: i32)
        requires
            (i as int) < grid_dims(*self).0,
            (j as int) < grid_dims(*self).1,
        ensures
            v as int == grid_cells(*self)[(i as int, j as int)],
    {
        self.cells[[i, j]]
    }

    /// Relies on `ndarray`'s `IndexMut<[usize; 2]>` impl: overwrites the
    /// element at the given row and column and leaves the rest of the array
    /// as it was. It panics out of range, which the precondition rules out.
    #[verifier::external_body]
    pub(crate) fn set_cell(&mut self, i: usize, j: usize, v: i32)
        requires
            (i as int) < grid_dims(*old(self)).0,
            (j as int) < grid_dims(*old(self)).1,
        ensures
            grid_dims(*final(self)) == grid_dims(*old(self)),
            grid_cells(*final(self)) == grid_cells(*old(self)).insert(
                (i as int, j as int),
                v as int,
            ),
    {
        self.cells[[i, j]] = v;
    }

    /// Relies on `ndarray`'s `nrows` (reached through deref): the number of
    /// rows of a 2-D array.
    #[verifier::external_body]
    pub(crate) fn nrows_raw(&self) -> (r: usize)
        ensures
            r as int == grid_dims(*self).0,
    {
        self.cells.nrows()
    }

    /// Relies on `ndarray`'s `ncols` (reached through deref): the number of
    /// columns of a 2-D array.
    #[verifier::external_body]
    pub(crate) fn ncols_raw(&self) -> (r: usize)
        ensures
            r as int == grid_dims(*self).1,
    {
        self.cells.ncols()
    }

    /// The number of rows.
    pub fn rows(&self) -> (r: usize)
        ensures
            r as int == grid_dims(*self).0,
    {
        self.nrows_raw()
    }

    /// The number of columns.
    pub fn cols(&self) -> (r: usize)
        ensures
            r as int == grid_dims(*self).1,
    {
        self.ncols_raw()
    }

    /// The element at the given row and column.
    pub fn get(&self, i: usize, j: usize) -> (v: i32)
        requires
            (i as int) < grid_dims(*self).0,
            (j as int) < grid_dims(*self).1,
        ensures
            v as int == grid_cells(*self)[(i as int, j as int)],
    {
        self.get_cell(i, j)
    }
}

} // verus!
