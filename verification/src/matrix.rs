//! The residue matrix of a polynomial: a two-dimensional array of words.

use ndarray::Array2;
use ndarray::ArrayView1;
use vstd::prelude::*;

verus! {

/// A matrix of words stored as an `ndarray::Array2<u64>`.
#[verifier::external_body]
pub struct Matrix {
    inner: Array2<u64>,
}

/// The rows of a matrix, first row first.
pub uninterp spec fn matrix_rows(m: Matrix) -> Seq<Seq<u64>>;

/// All rows of `rows` have `cols` entries.
pub open spec fn rectangular(rows: Seq<Seq<u64>>, cols: int) -> bool {
    forall|i: int| 0 <= i < rows.len() ==> (#[trigger] rows[i]).len() == cols
}

/// The contents of the vectors of `rows`.
pub open spec fn row_views(rows: Seq<Vec<u64>>) -> Seq<Seq<u64>> {
    rows.map_values(|v: Vec<u64>| v@)
}

/// `rows` make a matrix of `cols` columns that fits in memory.
pub open spec fn shape_fits(rows: Seq<Seq<u64>>, cols: int) -> bool {
    &&& 0 <= cols <= isize::MAX
    &&& rows.len() <= isize::MAX
    &&& rows.len() * cols <= isize::MAX
    &&& rectangular(rows, cols)
}

impl View for Matrix {
    type V = Seq<Seq<u64>>;

    open spec fn view(&self) -> Seq<Seq<u64>> {
        matrix_rows(*self)
    }
}

impl Clone for Matrix {
    /// A matrix with the same rows.
    fn clone(&self) -> (m: Matrix)
        ensures
            m@ == self@,
    {
        self.duplicate()
    }
}

impl Matrix {
    /// `Array2::clone`: a matrix with the same rows.
    #[verifier::external_body]
    fn duplicate(&self) -> (m: Matrix)
        ensures
            matrix_rows(m) == matrix_rows(*self),
    {
        Matrix { inner: self.inner.clone() }
    }

    /// `Array2::zeros`: a matrix of `rows` rows and `cols` columns that holds
    /// zero everywhere. The shape must fit the signed word, as the array asks.
    #[verifier::external_body]
    pub(crate) fn zeros(rows: usize, cols: usize) -> (m: Matrix)
        requires
            rows <= isize::MAX,
            cols <= isize::MAX,
            rows * cols <= isize::MAX,
        ensures
            matrix_rows(m).len() == rows,
            rectangular(matrix_rows(m), cols as int),
            forall|i: int, j: int| 0 <= i < rows && 0 <= j < cols ==> (#[trigger] matrix_rows(m)[i][j]) == 0,
    {
        Matrix { inner: Array2::zeros((rows, cols)) }
    }

    /// `Array2::nrows`: the number of rows.
    #[verifier::external_body]
    pub(crate) fn nrows(&self) -> (n: usize)
        ensures
            n == matrix_rows(*self).len(),
    {
        self.inner.nrows()
    }

    /// `Array2::row` copied out: the entries of row `i`.
    #[verifier::external_body]
    pub(crate) fn row(&self, i: usize) -> (r: Vec<u64>)
        requires
            i < matrix_rows(*self).len(),
        ensures
            r@ == matrix_rows(*self)[i as int],
    {
        self.inner.row(i).to_vec()
    }

    /// `Array2::row_mut` with `assign`: row `i` takes the entries of `v`, the
    /// other rows stay.
    #[verifier::external_body]
    pub(crate) fn set_row(&mut self, i: usize, v: &Vec<u64>)
        requires
            i < matrix_rows(*old(self)).len(),
            v@.len() == matrix_rows(*old(self))[i as int].len(),
        ensures
            matrix_rows(*final(self)) == matrix_rows(*old(self)).update(i as int, v@),
    {
        self.inner.row_mut(i).assign(&ArrayView1::from(v));
    }
    /// The matrix whose rows are the vectors of `rows`, or nothing when they
    /// differ in length or the matrix would not fit in memory.
    pub fn from_rows(rows: &Vec<Vec<u64>>) -> (m: Option<Matrix>)
        ensures
            m is Some ==> m->0@ == row_views(rows@),
            m is Some <==> exists|cols: int| #[trigger] shape_fits(row_views(rows@), cols),
    {
        let count: usize = rows.len();
        let ghost target = row_views(rows@);
        if count == 0 {
            let m = Matrix::zeros(0, 0);
            proof {
                assert(m@ =~= target);
                assert(shape_fits(target, 0));
            }
            return Some(m);
        }
        let cols: usize = rows[0].len();
        assert(target[0].len() == cols);
        let fits: bool = count <= isize::MAX as usize && cols <= isize::MAX as usize
            && match count.checked_mul(cols) {
            Some(size) => size <= isize::MAX as usize,
            None => false,
        };
        if !fits {
            proof {
                assert forall|c: int| !#[trigger] shape_fits(target, c) by {
                    if rectangular(target, c) {
                        assert(target[0].len() == c);
                    }
                }
            }
            return None;
        }
        let mut i: usize = 0;
        while i < count
            invariant
                i <= count,
                count == rows@.len(),
                count >= 1,
                cols == target[0].len(),
                target == row_views(rows@),
                forall|k: int| 0 <= k < i ==> (#[trigger] target[k]).len() == cols,
            decreases count - i,
        {
            assert(target[i as int] == rows@[i as int]@);
            if rows[i].len() != cols {
                proof {
                    assert forall|c: int| !#[trigger] shape_fits(target, c) by {
                        if rectangular(target, c) {
                            assert(target[0].len() == c);
                            assert(target[i as int].len() == c);
                        }
                    }
                }
                return None;
            }
            i += 1;
        }
        let mut m = Matrix::zeros(count, cols);
        let mut i: usize = 0;
        while i < count
            invariant
                i <= count,
                count == rows@.len(),
                m@.len() == count,
                rectangular(m@, cols as int),
                target == row_views(rows@),
                forall|k: int| 0 <= k < count ==> (#[trigger] target[k]).len() == cols,
                forall|k: int| 0 <= k < i ==> (#[trigger] m@[k]) == target[k],
            decreases count - i,
        {
            assert(target[i as int] == rows@[i as int]@);
            m.set_row(i, &rows[i]);
            i += 1;
        }
        proof {
            assert(m@ =~= target);
            assert(shape_fits(target, cols as int));
        }
        Some(m)
    }

    /// The rows of the matrix.
    pub fn to_rows(&self) -> (r: Vec<Vec<u64>>)
        ensures
            row_views(r@) == self@,
    {
        let count: usize = self.nrows();
        let mut r: Vec<Vec<u64>> = Vec::with_capacity(count);
        let mut i: usize = 0;
        while i < count
            invariant
                i <= count,
                count == self@.len(),
                r@.len() == i,
                forall|k: int| 0 <= k < i ==> (#[trigger] r@[k])@ == self@[k],
            decreases count - i,
        {
            r.push(self.row(i));
            i += 1;
        }
        proof {
            assert(row_views(r@) =~= self@);
        }
        r
    }
}

} // verus!
