//! A dense matrix of `i32`, stored row after row.
use crate::array::{walk_values, well_formed, Array, MutArray, Shaped};
use crate::shape::{column_walk, lemma_row_major_bounds, lemma_row_major_unique, row_major, Shape};
use vstd::prelude::*;

verus! {

/// A dense `nrows` by `ncols` matrix; entry `(r, c)` is stored at
/// `r * ncols + c` of `values`.
#[derive(Clone, Debug, PartialEq, Eq)]
pub struct DenseMatrix {
    nrows: usize,
    ncols: usize,
    values: Vec<i32>,
}

impl Shaped<(usize, usize)> for DenseMatrix {
    closed spec fn spec_shape(&self) -> (usize, usize) {
        (self.nrows, self.ncols)
    }

    closed spec fn spec_values(&self) -> Seq<i32> {
        self.values@
    }
}

/// Entry `(r, c)` of a matrix.
pub open spec fn at<A: Shaped<(usize, usize)> + ?Sized>(a: &A, r: int, c: int) -> i32 {
    a.spec_values()[row_major(r, c, a.spec_shape().1 as int)]
}

/// Number of rows of a matrix.
pub open spec fn rows_of<A: Shaped<(usize, usize)> + ?Sized>(a: &A) -> int {
    a.spec_shape().0 as int
}

/// Number of columns of a matrix.
pub open spec fn cols_of<A: Shaped<(usize, usize)> + ?Sized>(a: &A) -> int {
    a.spec_shape().1 as int
}

impl DenseMatrix {
    /// The matrix with `nrows` rows and `ncols` columns whose elements, row
    /// after row, are `values`.
    pub(crate) fn from_parts(nrows: usize, ncols: usize, values: Vec<i32>) -> (m: DenseMatrix)
        requires
            values@.len() == nrows * ncols,
        ensures
            well_formed(&m),
            m.spec_shape() == (nrows, ncols),
            m.spec_values() == values@,
    {
        proof {
            assert(values@.len() == values.len());
        }
        DenseMatrix { nrows, ncols, values }
    }

    /// Builds a matrix from its rows. The first row fixes the number of
    /// columns; every row must have at least that many elements, and only
    /// that many are read.
    pub fn from_2d_array(values: &[&[i32]]) -> (m: DenseMatrix)
        requires
            values@.len() > 0,
            forall|r: int| 0 <= r < values@.len() ==> values@[0]@.len() <= (#[trigger] values@[r])@.len(),
            values@.len() * values@[0]@.len() <= usize::MAX,
        ensures
            well_formed(&m),
            m.spec_shape() == (values@.len() as usize, values@[0]@.len() as usize),
            forall|r: int, c: int|
                0 <= r < values@.len() && 0 <= c < values@[0]@.len() ==> at(&m, r, c)
                    == #[trigger] values@[r]@[c],
    {
        let nrows = values.len();
        let ncols = values[0].len();
        let mut v: Vec<i32> = Vec::new();
        let mut r: usize = 0;
        while r < nrows
            invariant
                nrows == values@.len(),
                ncols == values@[0]@.len(),
                nrows * ncols <= usize::MAX,
                forall|q: int| 0 <= q < nrows ==> ncols <= (#[trigger] values@[q])@.len(),
                0 <= r <= nrows,
                v@.len() == r * ncols,
                forall|q: int, c: int|
                    0 <= q < r && 0 <= c < ncols ==> v@[row_major(q, c, ncols as int)] == #[trigger] values@[q]@[c],
            decreases nrows - r,
        {
            let row = values[r];
            let mut c: usize = 0;
            while c < ncols
                invariant
                    nrows == values@.len(),
                    ncols == values@[0]@.len(),
                    nrows * ncols <= usize::MAX,
                    row@ == values@[r as int]@,
                    ncols <= row@.len(),
                    0 <= r < nrows,
                    0 <= c <= ncols,
                    v@.len() == r * ncols + c,
                    forall|q: int, d: int|
                        0 <= q < r && 0 <= d < ncols ==> v@[row_major(q, d, ncols as int)] == #[trigger] values@[q]@[d],
                    forall|d: int| 0 <= d < c ==> v@[row_major(r as int, d, ncols as int)] == #[trigger] values@[r as int]@[d],
                decreases ncols - c,
            {
                proof {
                    lemma_row_major_bounds(r as int, c as int, nrows as int, ncols as int);
                }
                let ghost before = v@;
                v.push(row[c]);
                proof {
                    assert forall|q: int, d: int|
                        0 <= q < r && 0 <= d < ncols implies v@[row_major(q, d, ncols as int)] == #[trigger] values@[q]@[d] by {
                        lemma_row_major_bounds(q, d, r as int, ncols as int);
                        assert(v@[row_major(q, d, ncols as int)] == before[row_major(q, d, ncols as int)]);
                    }
                    assert forall|d: int| 0 <= d < c + 1 implies v@[row_major(r as int, d, ncols as int)] == #[trigger] values@[r as int]@[d] by {
                        if d < c {
                            assert(v@[row_major(r as int, d, ncols as int)] == before[row_major(r as int, d, ncols as int)]);
                        }
                    }
                }
                c = c + 1;
            }
            proof {
                assert(v@.len() == (r + 1) * ncols) by (nonlinear_arith)
                    requires
                        v@.len() == r * ncols + ncols,
                ;
            }
            r = r + 1;
        }
        DenseMatrix { nrows, ncols, values: v }
    }
}

impl Array<(usize, usize)> for DenseMatrix {
    fn get(&self, pos: (usize, usize)) -> (r: &i32) {
        proof {
            self.spec_shape().lemma_offset(pos);
        }
        &self.values[pos.0 * self.ncols + pos.1]
    }

    fn shape(&self) -> (s: (usize, usize)) {
        (self.nrows, self.ncols)
    }

    fn is_empty(&self) -> (b: bool) {
        self.values.len() == 0
    }

    fn iterator(&self, axis: u8) -> (v: Vec<i32>) {
        if axis == 0 {
            let v = crate::vector::to_vec(self.values.as_slice());
            assert(v@ =~= walk_values(self.spec_shape(), self.spec_values(), axis));
            v
        } else {
            let nrows = self.nrows;
            let ncols = self.ncols;
            let mut v: Vec<i32> = Vec::new();
            let mut c: usize = 0;
            while c < ncols
                invariant
                    well_formed(self),
                    nrows == self.nrows,
                    ncols == self.ncols,
                    0 <= c <= ncols,
                    v@.len() == c * nrows,
                    forall|k: int|
                        0 <= k < c * nrows ==> #[trigger] v@[k] == self.values@[column_walk(k, nrows as int, ncols as int)],
                decreases ncols - c,
            {
                let mut r: usize = 0;
                while r < nrows
                    invariant
                        well_formed(self),
                        nrows == self.nrows,
                        ncols == self.ncols,
                        0 <= c < ncols,
                        0 <= r <= nrows,
                        v@.len() == c * nrows + r,
                        forall|k: int|
                            0 <= k < c * nrows + r ==> #[trigger] v@[k] == self.values@[column_walk(k, nrows as int, ncols as int)],
                    decreases nrows - r,
                {
                    proof {
                        lemma_row_major_bounds(r as int, c as int, nrows as int, ncols as int);
                        lemma_row_major_unique(c as int, r as int, nrows as int);
                    }
                    let x = self.values[r * ncols + c];
                    v.push(x);
                    r = r + 1;
                }
                proof {
                    assert((c + 1) * nrows == c * nrows + nrows) by (nonlinear_arith);
                }
                c = c + 1;
            }
            proof {
                assert(v@.len() == nrows * ncols) by (nonlinear_arith)
                    requires
                        v@.len() == ncols * nrows,
                ;
            }
            assert(v@ =~= walk_values(self.spec_shape(), self.spec_values(), axis));
            v
        }
    }
}

impl MutArray<(usize, usize)> for DenseMatrix {
    fn set(&mut self, pos: (usize, usize), x: i32) {
        proof {
            self.spec_shape().lemma_offset(pos);
        }
        let k = pos.0 * self.ncols + pos.1;
        self.values[k] = x;
    }
}

} // verus!
