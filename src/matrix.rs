//! A dense integer matrix, kept in nalgebra's `DMatrix`.

use vstd::prelude::*;

verus! {

/// A dense matrix of `i32` entries indexed by (row, column).
#[verifier::external_body]
pub struct DistanceMatrix {
    m: nalgebra::DMatrix<i32>,
}

/// The entries of the matrix in row-major order: entry (row, col) at
/// `row * columns + col`.
pub uninterp spec fn matrix_entries(m: DistanceMatrix) -> Seq<i32>;

/// The number of rows and of columns.
pub uninterp spec fn matrix_shape(m: DistanceMatrix) -> (int, int);

/// Relies on nalgebra's `DMatrix::from_element`: a `rows` by `cols` matrix
/// with every entry equal to `value`.
#[verifier::external_body]
pub(crate) fn matrix_filled(rows: usize, cols: usize, value: i32) -> (r: DistanceMatrix)
    requires
        rows * cols <= usize::MAX,
    ensures
        matrix_shape(r) == (rows as int, cols as int),
        matrix_entries(r) == Seq::new((rows * cols) as nat, |i: int| value),
{
    DistanceMatrix { m: nalgebra::DMatrix::from_element(rows, cols, value) }
}

/// Relies on nalgebra's `Index<(usize, usize)>` for matrices: the entry at
/// (row, col). It panics out of bounds, which `requires` rules out.
#[verifier::external_body]
pub(crate) fn matrix_get(m: &DistanceMatrix, row: usize, col: usize) -> (r: i32)
    requires
        row < matrix_shape(*m).0,
        col < matrix_shape(*m).1,
    ensures
        r == matrix_entries(*m)[row * matrix_shape(*m).1 + col],
{
    m.m[(row, col)]
}

/// Relies on nalgebra's `IndexMut<(usize, usize)>` for matrices: writes the
/// entry at (row, col). It panics out of bounds, which `requires` rules out.
#[verifier::external_body]
pub(crate) fn matrix_set(m: &mut DistanceMatrix, row: usize, col: usize, value: i32)
    requires
        row < matrix_shape(*old(m)).0,
        col < matrix_shape(*old(m)).1,
    ensures
        matrix_shape(*final(m)) == matrix_shape(*old(m)),
        matrix_entries(*final(m)) == matrix_entries(*old(m)).update(row * matrix_shape(*old(m)).1 + col, value),
{
    m.m[(row, col)] = value;
}

impl DistanceMatrix {
    /// The entry at (row, col).
    pub fn get(&self, row: usize, col: usize) -> (r: i32)
        requires
            row < matrix_shape(*self).0,
            col < matrix_shape(*self).1,
        ensures
            r == matrix_entries(*self)[row * matrix_shape(*self).1 + col],
    {
        matrix_get(self, row, col)
    }
}

} // verus!
