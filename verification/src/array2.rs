//! Owned two-dimensional arrays: construction, reshaping, products and
//! operations that return a new matrix.
use crate::array::{walk_values, well_formed, Array, MutArray, Shaped};
use crate::matrix::{at, cols_of, rows_of, DenseMatrix};
use crate::num::{abs_int, div_ok, div_trunc, fits};
use crate::shape::{
    column_walk,
    lemma_row_major_bounds,
    lemma_row_major_split,
    lemma_row_major_unique,
    row_major,
    Shape,
};
use crate::laws::dot_commutes;
use crate::view1::{dot_fits, dot_prefix};
use crate::view2::MutArrayView2;
use core::ops::Range;
use vstd::prelude::*;

verus! {

/// The elements, row after row, of an `nrows` by `ncols` matrix filled from
/// `src`: row after row for axis 0, column after column otherwise.
pub open spec fn filled(src: Seq<i32>, nrows: int, ncols: int, axis: u8) -> Seq<i32> {
    Seq::new(
        (nrows * ncols) as nat,
        |k: int|
            if axis == 0 {
                src[k]
            } else {
                src[row_major(k % ncols, k / ncols, nrows)]
            },
    )
}

/// Row `r` of a matrix.
pub open spec fn row_of<A: Shaped<(usize, usize)> + ?Sized>(a: &A, r: int) -> Seq<i32> {
    Seq::new(cols_of(a) as nat, |c: int| at(a, r, c))
}

/// Column `c` of a matrix.
pub open spec fn col_of<A: Shaped<(usize, usize)> + ?Sized>(a: &A, c: int) -> Seq<i32> {
    Seq::new(rows_of(a) as nat, |r: int| at(a, r, c))
}

/// `t` is well formed and is the transpose of `m`.
pub open spec fn is_transpose_of<A: Shaped<(usize, usize)> + ?Sized, B: Shaped<(usize, usize)> + ?Sized>(
    t: &A,
    m: &B,
) -> bool {
    &&& has_shape(t, cols_of(m), rows_of(m))
    &&& forall|r: int, c: int| 0 <= r < cols_of(m) && 0 <= c < rows_of(m) ==> #[trigger] at(t, r, c) == at(m, c, r)
}

/// `a` is well formed and has `nrows` rows and `ncols` columns.
pub open spec fn has_shape<A: Shaped<(usize, usize)> + ?Sized>(a: &A, nrows: int, ncols: int) -> bool {
    &&& well_formed(a)
    &&& rows_of(a) == nrows
    &&& cols_of(a) == ncols
}

/// Reading a matrix filled row after row from `src` gives back `src`'s elements.
proof fn lemma_filled_rows(src: Seq<i32>, nrows: int, ncols: int, r: int, c: int)
    requires
        0 <= r < nrows,
        0 <= c < ncols,
    ensures
        0 <= row_major(r, c, ncols) < nrows * ncols,
        filled(src, nrows, ncols, 0)[row_major(r, c, ncols)] == src[row_major(r, c, ncols)],
{
    lemma_row_major_bounds(r, c, nrows, ncols);
}

/// Reading a matrix filled column after column from `src`: entry `(r, c)` is
/// element `c * nrows + r` of `src`.
pub(crate) proof fn lemma_filled_cols(src: Seq<i32>, nrows: int, ncols: int, r: int, c: int)
    requires
        0 <= r < nrows,
        0 <= c < ncols,
    ensures
        0 <= row_major(r, c, ncols) < nrows * ncols,
        filled(src, nrows, ncols, 1)[row_major(r, c, ncols)] == src[row_major(c, r, nrows)],
{
    lemma_row_major_bounds(r, c, nrows, ncols);
    lemma_row_major_unique(r, c, ncols);
}

/// Dropping `m` whole rows of `ncols` entries from a row-major offset.
proof fn lemma_row_major_shift(r: int, c: int, m: int, ncols: int)
    ensures
        row_major(r, c, ncols) - m * ncols == row_major(r - m, c, ncols),
{
    assert(r * ncols + c - m * ncols == (r - m) * ncols + c) by (nonlinear_arith);
}

/// Element `row_major(c, r, nrows)` of a column-after-column walk over an
/// `nrows` by `ncols` matrix is its entry `(r, c)`.
pub(crate) proof fn lemma_column_walk_entry(r: int, c: int, nrows: int, ncols: int)
    requires
        0 <= r < nrows,
        0 <= c < ncols,
    ensures
        0 <= row_major(c, r, nrows) < nrows * ncols,
        column_walk(row_major(c, r, nrows), nrows, ncols) == row_major(r, c, ncols),
{
    lemma_row_major_bounds(c, r, ncols, nrows);
    assert(ncols * nrows == nrows * ncols) by (nonlinear_arith);
    lemma_row_major_unique(c, r, nrows);
}

/// The elements, along axis 0 or 1, of all the arrays in `arrays`, one after another.
pub open spec fn concat_walks<S: Shape, A: Shaped<S> + ?Sized>(arrays: Seq<&A>, axis: u8) -> Seq<i32>
    decreases arrays.len(),
{
    if arrays.len() == 0 {
        Seq::empty()
    } else {
        concat_walks(arrays.drop_last(), axis) + walk_values(
            arrays.last().spec_shape(),
            arrays.last().spec_values(),
            axis,
        )
    }
}

/// Total number of rows of the matrices in `arrays`.
pub open spec fn total_rows<A: Shaped<(usize, usize)> + ?Sized>(arrays: Seq<&A>) -> int
    decreases arrays.len(),
{
    if arrays.len() == 0 {
        0
    } else {
        total_rows(arrays.drop_last()) + rows_of(arrays.last())
    }
}

/// Total number of columns of the matrices in `arrays`.
pub open spec fn total_cols<A: Shaped<(usize, usize)> + ?Sized>(arrays: Seq<&A>) -> int
    decreases arrays.len(),
{
    if arrays.len() == 0 {
        0
    } else {
        total_cols(arrays.drop_last()) + cols_of(arrays.last())
    }
}

/// Entry `(r, c)` of the matrix of the rows (axis 0) or columns (other
/// axes) of `a` at the positions `index`.
pub open spec fn picked<A: Shaped<(usize, usize)> + ?Sized>(a: &A, index: Seq<usize>, axis: u8, r: int, c: int) -> i32 {
    if axis == 0 {
        at(a, index[r] as int, c)
    } else {
        at(a, r, index[c] as int)
    }
}

/// All the arrays in `arrays` are well formed.
pub open spec fn all_well_formed<S: Shape, A: Shaped<S> + ?Sized>(arrays: Seq<&A>) -> bool {
    forall|t: int| 0 <= t < arrays.len() ==> well_formed(#[trigger] arrays[t])
}

/// The elements of `self` and then of `arrays` (append), or of `arrays` and
/// then of `self` (otherwise), `self` walked along `axis` and each of
/// `arrays` along axis 0.
pub open spec fn merged_stream<A: Shaped<(usize, usize)> + ?Sized, B: Shaped<usize> + ?Sized>(
    m: &A,
    arrays: Seq<&B>,
    axis: u8,
    append: bool,
) -> Seq<i32> {
    let own = walk_values(m.spec_shape(), m.spec_values(), axis);
    let others = concat_walks(arrays, 0);
    if append {
        own + others
    } else {
        others + own
    }
}

/// The first `t + 1` arrays are the first `t` and then array `t`.
pub(crate) proof fn lemma_prefix_push<A: ?Sized>(arrays: Seq<&A>, t: int)
    requires
        0 <= t < arrays.len(),
    ensures
        arrays.subrange(0, t + 1).drop_last() == arrays.subrange(0, t),
        arrays.subrange(0, t + 1).last() == arrays[t],
{
    assert(arrays.subrange(0, t + 1).drop_last() =~= arrays.subrange(0, t));
}

/// The rows of the first `t` matrices are no more than the rows of all of them.
pub(crate) proof fn lemma_total_rows_prefix<A: Shaped<(usize, usize)> + ?Sized>(arrays: Seq<&A>, t: int)
    requires
        0 <= t <= arrays.len(),
    ensures
        0 <= total_rows(arrays.subrange(0, t)) <= total_rows(arrays),
    decreases arrays.len() - t,
{
    if t < arrays.len() {
        lemma_total_rows_prefix(arrays, t + 1);
        lemma_prefix_push(arrays, t);
        lemma_total_rows_nonneg(arrays.subrange(0, t));
    } else {
        assert(arrays.subrange(0, t) =~= arrays);
        lemma_total_rows_nonneg(arrays);
    }
}

/// A total of rows is not negative.
pub(crate) proof fn lemma_total_rows_nonneg<A: Shaped<(usize, usize)> + ?Sized>(arrays: Seq<&A>)
    ensures
        total_rows(arrays) >= 0,
    decreases arrays.len(),
{
    if arrays.len() > 0 {
        lemma_total_rows_nonneg(arrays.drop_last());
    }
}

/// The columns of the first `t` matrices are no more than the columns of all of them.
pub(crate) proof fn lemma_total_cols_prefix<A: Shaped<(usize, usize)> + ?Sized>(arrays: Seq<&A>, t: int)
    requires
        0 <= t <= arrays.len(),
    ensures
        0 <= total_cols(arrays.subrange(0, t)) <= total_cols(arrays),
    decreases arrays.len() - t,
{
    if t < arrays.len() {
        lemma_total_cols_prefix(arrays, t + 1);
        lemma_prefix_push(arrays, t);
        lemma_total_cols_nonneg(arrays.subrange(0, t));
    } else {
        assert(arrays.subrange(0, t) =~= arrays);
        lemma_total_cols_nonneg(arrays);
    }
}

/// A total of columns is not negative.
pub(crate) proof fn lemma_total_cols_nonneg<A: Shaped<(usize, usize)> + ?Sized>(arrays: Seq<&A>)
    ensures
        total_cols(arrays) >= 0,
    decreases arrays.len(),
{
    if arrays.len() > 0 {
        lemma_total_cols_nonneg(arrays.drop_last());
    }
}

/// The elements of all the arrays in `arrays`, each walked along `axis`, one after another.
fn concat_iterators<S: Shape, A: Array<S> + ?Sized>(arrays: &[&A], axis: u8) -> (v: Vec<i32>)
    requires
        all_well_formed(arrays@),
        forall|t: int| 0 <= t < arrays@.len() ==> (#[trigger] arrays@[t]).spec_shape().valid_axis(axis),
    ensures
        v@ == concat_walks(arrays@, axis),
{
    let mut v: Vec<i32> = Vec::new();
    let mut t: usize = 0;
    while t < arrays.len()
        invariant
            all_well_formed(arrays@),
            forall|q: int| 0 <= q < arrays@.len() ==> (#[trigger] arrays@[q]).spec_shape().valid_axis(axis),
            0 <= t <= arrays@.len(),
            v@ == concat_walks(arrays@.subrange(0, t as int), axis),
        decreases arrays@.len() - t,
    {
        let a = arrays[t];
        assert(well_formed(arrays@[t as int]));
        let mut w = a.iterator(axis);
        v.append(&mut w);
        proof {
            lemma_prefix_push(arrays@, t as int);
        }
        t = t + 1;
    }
    assert(arrays@.subrange(0, arrays@.len() as int) =~= arrays@);
    v
}

/// Entry `(r, c)` of `m`, or of its transpose when `t`.
pub open spec fn op_at<A: Shaped<(usize, usize)> + ?Sized>(m: &A, t: bool, r: int, c: int) -> i32 {
    if t {
        at(m, c, r)
    } else {
        at(m, r, c)
    }
}

/// Number of rows of `m`, or of its transpose when `t`.
pub open spec fn op_rows<A: Shaped<(usize, usize)> + ?Sized>(m: &A, t: bool) -> int {
    if t {
        cols_of(m)
    } else {
        rows_of(m)
    }
}

/// Number of columns of `m`, or of its transpose when `t`.
pub open spec fn op_cols<A: Shaped<(usize, usize)> + ?Sized>(m: &A, t: bool) -> int {
    if t {
        rows_of(m)
    } else {
        cols_of(m)
    }
}

/// Row `r` of `m`, or of its transpose when `t`.
pub open spec fn op_row<A: Shaped<(usize, usize)> + ?Sized>(m: &A, t: bool, r: int) -> Seq<i32> {
    Seq::new(op_cols(m, t) as nat, |i: int| op_at(m, t, r, i))
}

/// Column `c` of `m`, or of its transpose when `t`.
pub open spec fn op_col<A: Shaped<(usize, usize)> + ?Sized>(m: &A, t: bool, c: int) -> Seq<i32> {
    Seq::new(op_rows(m, t) as nat, |i: int| op_at(m, t, i, c))
}

/// The products and partial sums of `b` by `a` fit exactly when those of `a` by `b` do.
proof fn lemma_dot_fits_commutes(a: Seq<i32>, b: Seq<i32>)
    requires
        a.len() == b.len(),
        dot_fits(a, b),
    ensures
        dot_fits(b, a),
{
    assert forall|i: int| 0 <= i < b.len() implies fits(#[trigger] b[i] * a[i]) by {
        vstd::arithmetic::mul::lemma_mul_is_commutative(a[i] as int, b[i] as int);
        assert(fits(a[i] * b[i]));
    }
    assert forall|k: int| 0 <= k <= b.len() implies fits(#[trigger] dot_prefix(b, a, k)) by {
        dot_commutes(a, b, k);
        assert(fits(dot_prefix(a, b, k)));
    }
}

/// An owned two-dimensional array of `i32`.
pub trait Array2: MutArrayView2 + Sized + Clone {
    /// An `nrows` by `ncols` matrix of copies of `value`.
    fn fill(nrows: usize, ncols: usize, value: i32) -> (m: Self)
        requires
            nrows * ncols <= usize::MAX,
        ensures
            has_shape(&m, nrows as int, ncols as int),
            m.spec_values() == Seq::new((nrows * ncols) as nat, |k: int| value),
    ;

    /// The sub-matrix of the rows in `rows` and the columns in `cols`.
    fn slice(&self, rows: Range<usize>, cols: Range<usize>) -> (m: Self)
        requires
            well_formed(self),
            rows.start <= rows.end <= rows_of(self),
            cols.start <= cols.end <= cols_of(self),
        ensures
            has_shape(&m, rows.end - rows.start, cols.end - cols.start),
            forall|r: int, c: int|
                0 <= r < rows.end - rows.start && 0 <= c < cols.end - cols.start ==> #[trigger] at(&m, r, c)
                    == at(self, rows.start + r, cols.start + c),
    ;

    /// An `nrows` by `ncols` matrix filled from the first elements of
    /// `iter`: row after row for axis 0, column after column otherwise.
    fn from_iterator(iter: &[i32], nrows: usize, ncols: usize, axis: u8) -> (m: Self)
        requires
            nrows * ncols <= iter@.len(),
        ensures
            has_shape(&m, nrows as int, ncols as int),
            m.spec_values() == filled(iter@, nrows as int, ncols as int, axis),
    ;

    /// Row `row`.
    fn get_row(&self, row: usize) -> (v: Vec<i32>)
        requires
            well_formed(self),
            row < rows_of(self),
        ensures
            v@ == row_of(self, row as int),
    ;

    /// Column `col`.
    fn get_col(&self, col: usize) -> (v: Vec<i32>)
        requires
            well_formed(self),
            col < cols_of(self),
        ensures
            v@ == col_of(self, col as int),
    ;

    /// An `nrows` by `ncols` matrix of zeros.
    fn zeros(nrows: usize, ncols: usize) -> (m: Self)
        requires
            nrows * ncols <= usize::MAX,
        ensures
            has_shape(&m, nrows as int, ncols as int),
            m.spec_values() == Seq::new((nrows * ncols) as nat, |k: int| 0i32),
    {
        Self::fill(nrows, ncols, 0)
    }

    /// An `nrows` by `ncols` matrix of ones.
    fn ones(nrows: usize, ncols: usize) -> (m: Self)
        requires
            nrows * ncols <= usize::MAX,
        ensures
            has_shape(&m, nrows as int, ncols as int),
            m.spec_values() == Seq::new((nrows * ncols) as nat, |k: int| 1i32),
    {
        Self::fill(nrows, ncols, 1)
    }

    /// The `size` by `size` identity matrix.
    fn eye(size: usize) -> (m: Self)
        requires
            size * size <= usize::MAX,
        ensures
            has_shape(&m, size as int, size as int),
            forall|r: int, c: int|
                0 <= r < size && 0 <= c < size ==> #[trigger] at(&m, r, c) == (if r == c {
                    1i32
                } else {
                    0i32
                }),
    {
        let mut matrix = Self::zeros(size, size);
        proof {
            assert forall|r: int, c: int| 0 <= r < size && 0 <= c < size implies #[trigger] at(&matrix, r, c) == 0i32 by {
                lemma_row_major_bounds(r, c, size as int, size as int);
            }
        }
        let mut i: usize = 0;
        while i < size
            invariant
                has_shape(&matrix, size as int, size as int),
                0 <= i <= size,
                forall|r: int, c: int|
                    0 <= r < size && 0 <= c < size ==> #[trigger] at(&matrix, r, c) == (if r == c && r < i {
                        1i32
                    } else {
                        0i32
                    }),
            decreases size - i,
        {
            let ghost before = matrix;
            matrix.set((i, i), 1);
            proof {
                lemma_row_major_bounds(i as int, i as int, size as int, size as int);
                assert forall|r: int, c: int|
                    0 <= r < size && 0 <= c < size implies #[trigger] at(&matrix, r, c) == (if r == c && r < i + 1 {
                        1i32
                    } else {
                        0i32
                    }) by {
                    lemma_row_major_bounds(r, c, size as int, size as int);
                    if row_major(r, c, size as int) == row_major(i as int, i as int, size as int) {
                        lemma_row_major_unique(r, c, size as int);
                        lemma_row_major_unique(i as int, i as int, size as int);
                    } else {
                        assert(at(&matrix, r, c) == at(&before, r, c));
                    }
                }
            }
            i = i + 1;
        }
        matrix
    }

    /// A matrix with the shape and elements of another two-dimensional array.
    fn from_slice<O: Array<(usize, usize)> + ?Sized>(slice: &O) -> (m: Self)
        requires
            well_formed(slice),
        ensures
            has_shape(&m, rows_of(slice), cols_of(slice)),
            m.spec_values() == slice.spec_values(),
    {
        let (nrows, ncols) = slice.shape();
        let v = slice.iterator(0);
        let m = Self::from_iterator(v.as_slice(), nrows, ncols, 0);
        assert(m.spec_values() =~= slice.spec_values());
        m
    }

    /// A matrix of one row, the elements of `slice`.
    fn from_row<O: Array<usize> + ?Sized>(slice: &O) -> (m: Self)
        requires
            well_formed(slice),
        ensures
            has_shape(&m, 1, slice.spec_values().len() as int),
            m.spec_values() == slice.spec_values(),
    {
        let ncols = slice.shape();
        let v = slice.iterator(0);
        let m = Self::from_iterator(v.as_slice(), 1, ncols, 0);
        assert(m.spec_values() =~= slice.spec_values());
        m
    }

    /// A matrix of one column, the elements of `slice`.
    fn from_column<O: Array<usize> + ?Sized>(slice: &O) -> (m: Self)
        requires
            well_formed(slice),
        ensures
            has_shape(&m, slice.spec_values().len() as int, 1),
            m.spec_values() == slice.spec_values(),
    {
        let nrows = slice.shape();
        let v = slice.iterator(0);
        let m = Self::from_iterator(v.as_slice(), nrows, 1, 0);
        assert(m.spec_values() =~= slice.spec_values());
        m
    }

    /// The transpose. The matrix must not be empty.
    fn transpose(&self) -> (m: Self)
        requires
            well_formed(self),
            rows_of(self) > 0,
            cols_of(self) > 0,
        ensures
            is_transpose_of(&m, self),
    {
        let (nrows, ncols) = self.shape();
        proof {
            assert(ncols * nrows == nrows * ncols) by (nonlinear_arith);
        }
        let mut m = Self::fill(ncols, nrows, *self.get((0, 0)));
        let mut c: usize = 0;
        while c < ncols
            invariant
                well_formed(self),
                (nrows, ncols) == self.spec_shape(),
                has_shape(&m, ncols as int, nrows as int),
                0 <= c <= ncols,
                forall|q: int, r: int| 0 <= q < c && 0 <= r < nrows ==> #[trigger] at(&m, q, r) == at(self, r, q),
            decreases ncols - c,
        {
            let mut r: usize = 0;
            while r < nrows
                invariant
                    well_formed(self),
                    (nrows, ncols) == self.spec_shape(),
                    has_shape(&m, ncols as int, nrows as int),
                    0 <= c < ncols,
                    0 <= r <= nrows,
                    forall|q: int, p: int| 0 <= q < c && 0 <= p < nrows ==> #[trigger] at(&m, q, p) == at(self, p, q),
                    forall|p: int| 0 <= p < r ==> #[trigger] at(&m, c as int, p) == at(self, p, c as int),
                decreases nrows - r,
            {
                let x = *self.get((r, c));
                let ghost before = m;
                m.set((c, r), x);
                proof {
                    lemma_row_major_bounds(c as int, r as int, ncols as int, nrows as int);
                    assert forall|q: int, p: int| 0 <= q < ncols && 0 <= p < nrows && !(q == c && p == r) implies #[trigger] at(&m, q, p) == at(&before, q, p) by {
                        lemma_row_major_bounds(q, p, ncols as int, nrows as int);
                        if row_major(q, p, nrows as int) == row_major(c as int, r as int, nrows as int) {
                            lemma_row_major_unique(q, p, nrows as int);
                            lemma_row_major_unique(c as int, r as int, nrows as int);
                        }
                    }
                }
                r = r + 1;
            }
            c = c + 1;
        }
        m
    }

    /// The same elements, read row after row, in an `nrows` by `ncols`
    /// matrix filled row after row (axis 0) or column after column (other
    /// axes). The number of elements must not change.
    fn reshape(&self, nrows: usize, ncols: usize, axis: u8) -> (m: Self)
        requires
            well_formed(self),
            nrows * ncols == rows_of(self) * cols_of(self),
        ensures
            has_shape(&m, nrows as int, ncols as int),
            m.spec_values() == filled(self.spec_values(), nrows as int, ncols as int, axis),
    {
        let v = self.iterator(0);
        assert(v@ =~= self.spec_values());
        Self::from_iterator(v.as_slice(), nrows, ncols, axis)
    }

    /// The matrix product with `other`, whose number of rows is this
    /// matrix's number of columns.
    fn matmul<O: Array<(usize, usize)> + ?Sized>(&self, other: &O) -> (m: Self)
        requires
            well_formed(self),
            well_formed(other),
            cols_of(self) == rows_of(other),
            rows_of(self) * cols_of(other) <= usize::MAX,
            forall|r: int, c: int|
                0 <= r < rows_of(self) && 0 <= c < cols_of(other) ==> dot_fits(
                    #[trigger] row_of(self, r),
                    #[trigger] col_of(other, c),
                ),
        ensures
            has_shape(&m, rows_of(self), cols_of(other)),
            forall|r: int, c: int|
                0 <= r < rows_of(self) && 0 <= c < cols_of(other) ==> #[trigger] at(&m, r, c) == dot_prefix(
                    row_of(self, r),
                    col_of(other, c),
                    cols_of(self),
                ),
    {
        let (nrows, ncols) = self.shape();
        let (o_nrows, o_ncols) = other.shape();
        let inner_d = ncols;
        let mut result = Self::zeros(nrows, o_ncols);
        let mut r: usize = 0;
        while r < nrows
            invariant
                well_formed(self),
                well_formed(other),
                (nrows, ncols) == self.spec_shape(),
                (o_nrows, o_ncols) == other.spec_shape(),
                inner_d == ncols,
                ncols == o_nrows,
                has_shape(&result, nrows as int, o_ncols as int),
                forall|p: int, q: int|
                    0 <= p < nrows && 0 <= q < o_ncols ==> dot_fits(
                        #[trigger] row_of(self, p),
                        #[trigger] col_of(other, q),
                    ),
                0 <= r <= nrows,
                forall|p: int, q: int|
                    0 <= p < r && 0 <= q < o_ncols ==> #[trigger] at(&result, p, q) == dot_prefix(
                        row_of(self, p),
                        col_of(other, q),
                        ncols as int,
                    ),
            decreases nrows - r,
        {
            let mut c: usize = 0;
            while c < o_ncols
                invariant
                    well_formed(self),
                    well_formed(other),
                    (nrows, ncols) == self.spec_shape(),
                    (o_nrows, o_ncols) == other.spec_shape(),
                    inner_d == ncols,
                    ncols == o_nrows,
                    has_shape(&result, nrows as int, o_ncols as int),
                    forall|p: int, q: int|
                        0 <= p < nrows && 0 <= q < o_ncols ==> dot_fits(
                            #[trigger] row_of(self, p),
                            #[trigger] col_of(other, q),
                        ),
                    0 <= r < nrows,
                    0 <= c <= o_ncols,
                    forall|p: int, q: int|
                        0 <= p < r && 0 <= q < o_ncols ==> #[trigger] at(&result, p, q) == dot_prefix(
                            row_of(self, p),
                            col_of(other, q),
                            ncols as int,
                        ),
                    forall|q: int|
                        0 <= q < c ==> #[trigger] at(&result, r as int, q) == dot_prefix(
                            row_of(self, r as int),
                            col_of(other, q),
                            ncols as int,
                        ),
                decreases o_ncols - c,
            {
                let ghost a = row_of(self, r as int);
                let ghost b = col_of(other, c as int);
                assert(dot_fits(a, b));
                let mut s: i32 = 0;
                let mut i: usize = 0;
                while i < inner_d
                    invariant
                        well_formed(self),
                        well_formed(other),
                        (nrows, ncols) == self.spec_shape(),
                        (o_nrows, o_ncols) == other.spec_shape(),
                        inner_d == ncols,
                        ncols == o_nrows,
                        0 <= r < nrows,
                        0 <= c < o_ncols,
                        a == row_of(self, r as int),
                        b == col_of(other, c as int),
                        dot_fits(a, b),
                        0 <= i <= inner_d,
                        s == dot_prefix(a, b, i as int),
                    decreases inner_d - i,
                {
                    let x = *self.get((r, i));
                    let y = *other.get((i, c));
                    assert(x == a[i as int] && y == b[i as int]);
                    assert(fits(a[i as int] * b[i as int]));
                    assert(fits(dot_prefix(a, b, i + 1)));
                    s = s + x * y;
                    i = i + 1;
                }
                let ghost before = result;
                result.set((r, c), s);
                proof {
                    lemma_row_major_bounds(r as int, c as int, nrows as int, o_ncols as int);
                    assert forall|p: int, q: int|
                        0 <= p < nrows && 0 <= q < o_ncols && !(p == r && q == c) implies #[trigger] at(&result, p, q)
                        == at(&before, p, q) by {
                        lemma_row_major_bounds(p, q, nrows as int, o_ncols as int);
                        if row_major(p, q, o_ncols as int) == row_major(r as int, c as int, o_ncols as int) {
                            lemma_row_major_unique(p, q, o_ncols as int);
                            lemma_row_major_unique(r as int, c as int, o_ncols as int);
                        }
                    }
                }
                c = c + 1;
            }
            r = r + 1;
        }
        result
    }

    /// This matrix with the rows of `other`, which has as many columns,
    /// below it.
    fn v_stack<O: Array<(usize, usize)> + ?Sized>(&self, other: &O) -> (m: Self)
        requires
            well_formed(self),
            well_formed(other),
            cols_of(self) == cols_of(other),
            rows_of(self) + rows_of(other) <= usize::MAX,
            (rows_of(self) + rows_of(other)) * cols_of(self) <= usize::MAX,
        ensures
            has_shape(&m, rows_of(self) + rows_of(other), cols_of(self)),
            forall|r: int, c: int|
                0 <= r < rows_of(self) + rows_of(other) && 0 <= c < cols_of(self) ==> #[trigger] at(&m, r, c)
                    == if r < rows_of(self) {
                    at(self, r, c)
                } else {
                    at(other, r - rows_of(self), c)
                },
    {
        let (nrows, ncols) = self.shape();
        let (other_nrows, other_ncols) = other.shape();
        let mut v = self.iterator(0);
        let mut w = other.iterator(0);
        let ghost vs = v@;
        let ghost ws = w@;
        v.append(&mut w);
        proof {
            assert((nrows + other_nrows) * ncols == nrows * ncols + other_nrows * ncols) by (nonlinear_arith);
        }
        let m = Self::from_iterator(v.as_slice(), nrows + other_nrows, ncols, 0);
        proof {
            assert forall|r: int, c: int|
                0 <= r < nrows + other_nrows && 0 <= c < ncols implies #[trigger] at(&m, r, c) == if r < nrows {
                    at(self, r, c)
                } else {
                    at(other, r - nrows, c)
                } by {
                lemma_filled_rows(v@, (nrows + other_nrows) as int, ncols as int, r, c);
                if r < nrows {
                    lemma_row_major_bounds(r, c, nrows as int, ncols as int);
                } else {
                    lemma_row_major_shift(r, c, nrows as int, ncols as int);
                    lemma_row_major_bounds(r - nrows, c, other_nrows as int, ncols as int);
                }
            }
        }
        m
    }

    /// This matrix with the columns of `other`, which has as many rows, to
    /// its right.
    fn h_stack<O: Array<(usize, usize)> + ?Sized>(&self, other: &O) -> (m: Self)
        requires
            well_formed(self),
            well_formed(other),
            rows_of(self) == rows_of(other),
            cols_of(self) + cols_of(other) <= usize::MAX,
            rows_of(self) * (cols_of(self) + cols_of(other)) <= usize::MAX,
        ensures
            has_shape(&m, rows_of(self), cols_of(self) + cols_of(other)),
            forall|r: int, c: int|
                0 <= r < rows_of(self) && 0 <= c < cols_of(self) + cols_of(other) ==> #[trigger] at(&m, r, c)
                    == if c < cols_of(self) {
                    at(self, r, c)
                } else {
                    at(other, r, c - cols_of(self))
                },
    {
        let (nrows, ncols) = self.shape();
        let (other_nrows, other_ncols) = other.shape();
        let mut v = self.iterator(1);
        let mut w = other.iterator(1);
        v.append(&mut w);
        proof {
            assert(nrows * (ncols + other_ncols) == nrows * ncols + nrows * other_ncols) by (nonlinear_arith);
            assert(nrows * ncols == ncols * nrows && nrows * other_ncols == other_ncols * nrows) by (nonlinear_arith);
        }
        let m = Self::from_iterator(v.as_slice(), nrows, other_ncols + ncols, 1);
        proof {
            assert forall|r: int, c: int|
                0 <= r < nrows && 0 <= c < ncols + other_ncols implies #[trigger] at(&m, r, c) == if c < ncols {
                    at(self, r, c)
                } else {
                    at(other, r, c - ncols)
                } by {
                lemma_filled_cols(v@, nrows as int, (other_ncols + ncols) as int, r, c);
                if c < ncols {
                    lemma_column_walk_entry(r, c, nrows as int, ncols as int);
                } else {
                    lemma_row_major_shift(c, r, ncols as int, nrows as int);
                    lemma_column_walk_entry(r, c - ncols, nrows as int, other_ncols as int);
                }
            }
        }
        m
    }

    /// A matrix whose rows (axis 0) or columns (axis 1) are the arrays in
    /// `arrays`, which all have the same length.
    fn concatenate_1d<A: Array<usize> + ?Sized>(arrays: &[&A], axis: u8) -> (m: Self)
        requires
            axis == 0 || axis == 1,
            arrays@.len() > 0,
            all_well_formed(arrays@),
            forall|t: int|
                0 <= t < arrays@.len() ==> (#[trigger] arrays@[t]).spec_values().len() == arrays@[0].spec_values().len(),
            arrays@.len() * arrays@[0].spec_values().len() <= usize::MAX,
        ensures
            axis == 0 ==> has_shape(&m, arrays@.len() as int, arrays@[0].spec_values().len() as int),
            axis == 1 ==> has_shape(&m, arrays@[0].spec_values().len() as int, arrays@.len() as int),
            axis == 0 ==> forall|r: int, c: int|
                0 <= r < arrays@.len() && 0 <= c < arrays@[0].spec_values().len() ==> #[trigger] at(&m, r, c)
                    == arrays@[r].spec_values()[c],
            axis == 1 ==> forall|r: int, c: int|
                0 <= r < arrays@[0].spec_values().len() && 0 <= c < arrays@.len() ==> #[trigger] at(&m, r, c)
                    == arrays@[c].spec_values()[r],
    {
        let k = arrays.len();
        assert(well_formed(arrays@[0]));
        let n = arrays[0].shape();
        let mut v: Vec<i32> = Vec::new();
        let mut t: usize = 0;
        while t < k
            invariant
                k == arrays@.len(),
                n == arrays@[0].spec_values().len(),
                k * n <= usize::MAX,
                all_well_formed(arrays@),
                forall|q: int| 0 <= q < arrays@.len() ==> (#[trigger] arrays@[q]).spec_values().len() == n,
                0 <= t <= k,
                v@.len() == t * n,
                forall|q: int, c: int|
                    0 <= q < t && 0 <= c < n ==> v@[row_major(q, c, n as int)] == #[trigger] arrays@[q].spec_values()[c],
            decreases k - t,
        {
            let a = arrays[t];
            assert(well_formed(arrays@[t as int]));
            let mut w = a.iterator(0);
            let ghost before = v@;
            v.append(&mut w);
            proof {
                assert forall|q: int, c: int|
                    0 <= q < t + 1 && 0 <= c < n implies v@[row_major(q, c, n as int)] == #[trigger] arrays@[q].spec_values()[c] by {
                    lemma_row_major_bounds(q, c, t + 1, n as int);
                    if q < t {
                        lemma_row_major_bounds(q, c, t as int, n as int);
                    } else {
                        lemma_row_major_shift(q, c, t as int, n as int);
                    }
                }
                assert(v@.len() == (t + 1) * n) by (nonlinear_arith)
                    requires
                        v@.len() == t * n + n,
                ;
            }
            t = t + 1;
        }
        if axis == 0 {
            let m = Self::from_iterator(v.as_slice(), k, n, axis);
            proof {
                assert forall|r: int, c: int|
                    0 <= r < k && 0 <= c < n implies #[trigger] at(&m, r, c) == arrays@[r].spec_values()[c] by {
                    lemma_filled_rows(v@, k as int, n as int, r, c);
                }
            }
            m
        } else {
            proof {
                assert(n * k == k * n) by (nonlinear_arith);
            }
            let m = Self::from_iterator(v.as_slice(), n, k, axis);
            proof {
                assert forall|r: int, c: int|
                    0 <= r < n && 0 <= c < k implies #[trigger] at(&m, r, c) == arrays@[c].spec_values()[r] by {
                    lemma_filled_cols(v@, n as int, k as int, r, c);
                }
            }
            m
        }
    }

    /// A matrix of the matrices in `arrays` one below the other (axis 0,
    /// all with as many columns) or side by side (axis 1, all with as many
    /// rows).
    fn concatenate_2d<A: Array<(usize, usize)> + ?Sized>(arrays: &[&A], axis: u8) -> (m: Self)
        requires
            axis == 0 || axis == 1,
            arrays@.len() > 0,
            all_well_formed(arrays@),
            axis == 0 ==> forall|t: int| 0 <= t < arrays@.len() ==> cols_of(#[trigger] arrays@[t]) == cols_of(arrays@[0]),
            axis == 1 ==> forall|t: int| 0 <= t < arrays@.len() ==> rows_of(#[trigger] arrays@[t]) == rows_of(arrays@[0]),
            axis == 0 ==> total_rows(arrays@) * cols_of(arrays@[0]) <= usize::MAX,
            axis == 1 ==> rows_of(arrays@[0]) * total_cols(arrays@) <= usize::MAX,
            axis == 0 ==> total_rows(arrays@) <= usize::MAX,
            axis == 1 ==> total_cols(arrays@) <= usize::MAX,
        ensures
            axis == 0 ==> has_shape(&m, total_rows(arrays@), cols_of(arrays@[0])),
            axis == 1 ==> has_shape(&m, rows_of(arrays@[0]), total_cols(arrays@)),
            axis == 0 ==> m.spec_values() == concat_walks(arrays@, 0),
            axis == 1 ==> m.spec_values() == filled(
                concat_walks(arrays@, 1),
                rows_of(arrays@[0]),
                total_cols(arrays@),
                1,
            ),
    {
        assert(well_formed(arrays@[0]));
        let (nrows0, ncols0) = arrays[0].shape();
        let v = concat_iterators(arrays, axis);
        let mut total: usize = 0;
        let mut t: usize = 0;
        while t < arrays.len()
            invariant
                axis == 0 || axis == 1,
                all_well_formed(arrays@),
                (nrows0, ncols0) == arrays@[0].spec_shape(),
                axis == 0 ==> forall|q: int| 0 <= q < arrays@.len() ==> cols_of(#[trigger] arrays@[q]) == ncols0,
                axis == 1 ==> forall|q: int| 0 <= q < arrays@.len() ==> rows_of(#[trigger] arrays@[q]) == nrows0,
                axis == 0 ==> total_rows(arrays@) <= usize::MAX,
                axis == 1 ==> total_cols(arrays@) <= usize::MAX,
                0 <= t <= arrays@.len(),
                axis == 0 ==> total == total_rows(arrays@.subrange(0, t as int)),
                axis == 1 ==> total == total_cols(arrays@.subrange(0, t as int)),
                axis == 0 ==> concat_walks(arrays@.subrange(0, t as int), axis).len() == total * ncols0,
                axis == 1 ==> concat_walks(arrays@.subrange(0, t as int), axis).len() == total * nrows0,
            decreases arrays@.len() - t,
        {
            let a = arrays[t];
            assert(well_formed(arrays@[t as int]));
            let (r, c) = a.shape();
            proof {
                lemma_prefix_push(arrays@, t as int);
                lemma_total_rows_prefix(arrays@, t + 1);
                lemma_total_cols_prefix(arrays@, t + 1);
            }
            if axis == 0 {
                total = total + r;
                proof {
                    assert(total * ncols0 == (total - r) * ncols0 + r * c) by (nonlinear_arith)
                        requires
                            c == ncols0,
                    ;
                }
            } else {
                total = total + c;
                proof {
                    assert(total * nrows0 == (total - c) * nrows0 + r * c) by (nonlinear_arith)
                        requires
                            r == nrows0,
                    ;
                }
            }
            t = t + 1;
        }
        proof {
            assert(arrays@.subrange(0, arrays@.len() as int) =~= arrays@);
        }
        if axis == 0 {
            let m = Self::from_iterator(v.as_slice(), total, ncols0, axis);
            assert(m.spec_values() =~= concat_walks(arrays@, 0));
            m
        } else {
            proof {
                assert(nrows0 * total == total * nrows0) by (nonlinear_arith);
            }
            Self::from_iterator(v.as_slice(), nrows0, total, axis)
        }
    }

    /// This matrix with the arrays in `arrays` added as rows (axis 0) or
    /// columns (axis 1): after its own when `append`, before them otherwise.
    /// The result is filled from the elements of this matrix, walked along
    /// `axis`, and of `arrays`, one after another.
    fn merge_1d<A: Array<usize> + ?Sized>(&self, arrays: &[&A], axis: u8, append: bool) -> (m: Self)
        requires
            well_formed(self),
            axis == 0 || axis == 1,
            arrays@.len() > 0,
            all_well_formed(arrays@),
            axis == 0 ==> rows_of(self) + arrays@.len() <= usize::MAX,
            axis == 1 ==> cols_of(self) + arrays@.len() <= usize::MAX,
            axis == 0 ==> (rows_of(self) + arrays@.len()) * cols_of(self) <= merged_stream(
                self,
                arrays@,
                axis,
                append,
            ).len(),
            axis == 1 ==> rows_of(self) * (cols_of(self) + arrays@.len()) <= merged_stream(
                self,
                arrays@,
                axis,
                append,
            ).len(),
        ensures
            axis == 0 ==> has_shape(&m, rows_of(self) + arrays@.len(), cols_of(self)),
            axis == 1 ==> has_shape(&m, rows_of(self), cols_of(self) + arrays@.len()),
            axis == 0 ==> m.spec_values() == filled(
                merged_stream(self, arrays@, axis, append),
                rows_of(self) + arrays@.len(),
                cols_of(self),
                axis,
            ),
            axis == 1 ==> m.spec_values() == filled(
                merged_stream(self, arrays@, axis, append),
                rows_of(self),
                cols_of(self) + arrays@.len(),
                axis,
            ),
    {
        let (nrows, ncols) = self.shape();
        let k = arrays.len();
        let mut others = concat_iterators(arrays, 0);
        let mut own = self.iterator(axis);
        let stream = if append {
            own.append(&mut others);
            own
        } else {
            others.append(&mut own);
            others
        };
        let len = stream.len();
        if axis == 0 {
            Self::from_iterator(stream.as_slice(), nrows + k, ncols, axis)
        } else {
            Self::from_iterator(stream.as_slice(), nrows, ncols + k, axis)
        }
    }

    /// The rows (axis 0) or columns (other axes) at the positions `index`, in that order.
    fn take(&self, index: &[usize], axis: u8) -> (m: Self)
        requires
            well_formed(self),
            axis == 0 ==> forall|k: int| 0 <= k < index@.len() ==> #[trigger] index@[k] < rows_of(self),
            axis != 0 ==> forall|k: int| 0 <= k < index@.len() ==> #[trigger] index@[k] < cols_of(self),
            axis == 0 ==> index@.len() * cols_of(self) <= usize::MAX,
            axis != 0 ==> rows_of(self) * index@.len() <= usize::MAX,
        ensures
            axis == 0 ==> has_shape(&m, index@.len() as int, cols_of(self)),
            axis != 0 ==> has_shape(&m, rows_of(self), index@.len() as int),
            axis == 0 ==> forall|r: int, c: int|
                0 <= r < index@.len() && 0 <= c < cols_of(self) ==> #[trigger] at(&m, r, c) == at(
                    self,
                    index@[r] as int,
                    c,
                ),
            axis != 0 ==> forall|r: int, c: int|
                0 <= r < rows_of(self) && 0 <= c < index@.len() ==> #[trigger] at(&m, r, c) == at(
                    self,
                    r,
                    index@[c] as int,
                ),
    {
        let (nrows, ncols) = self.shape();
        let klen = index.len();
        let (out_rows, out_cols) = if axis == 0 {
            (klen, ncols)
        } else {
            (nrows, klen)
        };
        let mut v: Vec<i32> = Vec::new();
        let mut r: usize = 0;
        while r < out_rows
            invariant
                well_formed(self),
                (nrows, ncols) == self.spec_shape(),
                klen == index@.len(),
                out_rows == (if axis == 0 { klen } else { nrows }),
                out_cols == (if axis == 0 { ncols } else { klen }),
                out_rows * out_cols <= usize::MAX,
                axis == 0 ==> forall|k: int| 0 <= k < index@.len() ==> #[trigger] index@[k] < nrows,
                axis != 0 ==> forall|k: int| 0 <= k < index@.len() ==> #[trigger] index@[k] < ncols,
                0 <= r <= out_rows,
                v@.len() == r * out_cols,
                forall|p: int, q: int|
                    0 <= p < r && 0 <= q < out_cols ==> #[trigger] v@[row_major(p, q, out_cols as int)] == picked(self, index@, axis, p, q),
            decreases out_rows - r,
        {
            let mut c: usize = 0;
            while c < out_cols
                invariant
                    well_formed(self),
                    (nrows, ncols) == self.spec_shape(),
                    klen == index@.len(),
                    out_rows == (if axis == 0 { klen } else { nrows }),
                    out_cols == (if axis == 0 { ncols } else { klen }),
                    out_rows * out_cols <= usize::MAX,
                    axis == 0 ==> forall|k: int| 0 <= k < index@.len() ==> #[trigger] index@[k] < nrows,
                    axis != 0 ==> forall|k: int| 0 <= k < index@.len() ==> #[trigger] index@[k] < ncols,
                    0 <= r < out_rows,
                    0 <= c <= out_cols,
                    v@.len() == r * out_cols + c,
                    forall|p: int, q: int|
                        0 <= p < r && 0 <= q < out_cols ==> #[trigger] v@[row_major(p, q, out_cols as int)] == picked(self, index@, axis, p, q),
                    forall|q: int| 0 <= q < c ==> #[trigger] v@[row_major(r as int, q, out_cols as int)] == picked(self, index@, axis, r as int, q),
                decreases out_cols - c,
            {
                let pos = if axis == 0 {
                    (index[r], c)
                } else {
                    (r, index[c])
                };
                let x = *self.get(pos);
                let ghost before = v@;
                v.push(x);
                proof {
                    assert forall|p: int, q: int|
                        0 <= p < r && 0 <= q < out_cols implies #[trigger] v@[row_major(p, q, out_cols as int)] == picked(self, index@, axis, p, q) by {
                        lemma_row_major_bounds(p, q, r as int, out_cols as int);
                        assert(v@[row_major(p, q, out_cols as int)] == before[row_major(p, q, out_cols as int)]);
                    }
                    assert(v@[row_major(r as int, c as int, out_cols as int)] == x);
                    if axis == 0 {
                        assert(x == at(self, index@[r as int] as int, c as int));
                    } else {
                        assert(x == at(self, r as int, index@[c as int] as int));
                    }
                    assert(x == picked(self, index@, axis, r as int, c as int));
                    assert forall|q: int| 0 <= q < c + 1 implies #[trigger] v@[row_major(r as int, q, out_cols as int)] == picked(self, index@, axis, r as int, q) by {
                        if q < c {
                            assert(v@[row_major(r as int, q, out_cols as int)] == before[row_major(r as int, q, out_cols as int)]);
                        }
                    }
                }
                c = c + 1;
            }
            proof {
                assert(v@.len() == (r + 1) * out_cols) by (nonlinear_arith)
                    requires
                        v@.len() == r * out_cols + out_cols,
                ;
            }
            r = r + 1;
        }
        let m = Self::from_iterator(v.as_slice(), out_rows, out_cols, 0);
        proof {
            assert forall|p: int, q: int| 0 <= p < out_rows && 0 <= q < out_cols implies #[trigger] at(&m, p, q) == picked(self, index@, axis, p, q) by {
                lemma_filled_rows(v@, out_rows as int, out_cols as int, p, q);
            }
        }
        m
    }

    /// A copy with `x` added to every element.
    fn add_scalar(&self, x: i32) -> (m: Self)
        requires
            well_formed(self),
            forall|i: int| 0 <= i < self.spec_values().len() ==> fits(#[trigger] self.spec_values()[i] + x),
        ensures
            has_shape(&m, rows_of(self), cols_of(self)),
            m.spec_values() == self.spec_values().map_values(|v: i32| (v + x) as i32),
    {
        let mut result = Self::from_slice(self);
        result.add_scalar_mut(x);
        result
    }

    /// A copy with `x` subtracted from every element.
    fn sub_scalar(&self, x: i32) -> (m: Self)
        requires
            well_formed(self),
            forall|i: int| 0 <= i < self.spec_values().len() ==> fits(#[trigger] self.spec_values()[i] - x),
        ensures
            has_shape(&m, rows_of(self), cols_of(self)),
            m.spec_values() == self.spec_values().map_values(|v: i32| (v - x) as i32),
    {
        let mut result = Self::from_slice(self);
        result.sub_scalar_mut(x);
        result
    }

    /// A copy with every element multiplied by `x`.
    fn mul_scalar(&self, x: i32) -> (m: Self)
        requires
            well_formed(self),
            forall|i: int| 0 <= i < self.spec_values().len() ==> fits(#[trigger] self.spec_values()[i] * x),
        ensures
            has_shape(&m, rows_of(self), cols_of(self)),
            m.spec_values() == self.spec_values().map_values(|v: i32| (v * x) as i32),
    {
        let mut result = Self::from_slice(self);
        result.mul_scalar_mut(x);
        result
    }

    /// A copy with every element divided by `x`, rounding toward zero.
    fn div_scalar(&self, x: i32) -> (m: Self)
        requires
            well_formed(self),
            forall|i: int| 0 <= i < self.spec_values().len() ==> div_ok(#[trigger] self.spec_values()[i], x),
        ensures
            has_shape(&m, rows_of(self), cols_of(self)),
            m.spec_values() == self.spec_values().map_values(|v: i32| div_trunc(v as int, x as int) as i32),
    {
        let mut result = Self::from_slice(self);
        result.div_scalar_mut(x);
        result
    }

    /// The element-wise sum with `other`, which has the same shape.
    fn add<O: Array<(usize, usize)> + ?Sized>(&self, other: &O) -> (m: Self)
        requires
            well_formed(self),
            well_formed(other),
            self.spec_shape() == other.spec_shape(),
            forall|i: int|
                0 <= i < self.spec_values().len() ==> fits(#[trigger] self.spec_values()[i] + other.spec_values()[i]),
        ensures
            has_shape(&m, rows_of(self), cols_of(self)),
            m.spec_values() == Seq::new(
                self.spec_values().len(),
                |i: int| (self.spec_values()[i] + other.spec_values()[i]) as i32,
            ),
    {
        let mut result = Self::from_slice(self);
        result.add_mut(other);
        result
    }

    /// The element-wise difference with `other`, which has the same shape.
    fn sub<O: Array<(usize, usize)> + ?Sized>(&self, other: &O) -> (m: Self)
        requires
            well_formed(self),
            well_formed(other),
            self.spec_shape() == other.spec_shape(),
            forall|i: int|
                0 <= i < self.spec_values().len() ==> fits(#[trigger] self.spec_values()[i] - other.spec_values()[i]),
        ensures
            has_shape(&m, rows_of(self), cols_of(self)),
            m.spec_values() == Seq::new(
                self.spec_values().len(),
                |i: int| (self.spec_values()[i] - other.spec_values()[i]) as i32,
            ),
    {
        let mut result = Self::from_slice(self);
        result.sub_mut(other);
        result
    }

    /// The element-wise product with `other`, which has the same shape.
    fn mul<O: Array<(usize, usize)> + ?Sized>(&self, other: &O) -> (m: Self)
        requires
            well_formed(self),
            well_formed(other),
            self.spec_shape() == other.spec_shape(),
            forall|i: int|
                0 <= i < self.spec_values().len() ==> fits(#[trigger] self.spec_values()[i] * other.spec_values()[i]),
        ensures
            has_shape(&m, rows_of(self), cols_of(self)),
            m.spec_values() == Seq::new(
                self.spec_values().len(),
                |i: int| (self.spec_values()[i] * other.spec_values()[i]) as i32,
            ),
    {
        let mut result = Self::from_slice(self);
        result.mul_mut(other);
        result
    }

    /// The element-wise quotient by `other`, which has the same shape,
    /// rounding toward zero.
    fn div<O: Array<(usize, usize)> + ?Sized>(&self, other: &O) -> (m: Self)
        requires
            well_formed(self),
            well_formed(other),
            self.spec_shape() == other.spec_shape(),
            forall|i: int|
                0 <= i < self.spec_values().len() ==> div_ok(#[trigger] self.spec_values()[i], other.spec_values()[i]),
        ensures
            has_shape(&m, rows_of(self), cols_of(self)),
            m.spec_values() == Seq::new(
                self.spec_values().len(),
                |i: int| div_trunc(self.spec_values()[i] as int, other.spec_values()[i] as int) as i32,
            ),
    {
        let mut result = Self::from_slice(self);
        result.div_mut(other);
        result
    }

    /// A copy with every element replaced by its absolute value.
    fn abs(&self) -> (m: Self)
        requires
            well_formed(self),
            forall|i: int| 0 <= i < self.spec_values().len() ==> #[trigger] self.spec_values()[i] != i32::MIN,
        ensures
            has_shape(&m, rows_of(self), cols_of(self)),
            m.spec_values() == self.spec_values().map_values(|v: i32| abs_int(v as int) as i32),
    {
        let mut result = Self::from_slice(self);
        result.abs_mut();
        result
    }

    /// A copy with every element negated.
    fn neg(&self) -> (m: Self)
        requires
            well_formed(self),
            forall|i: int| 0 <= i < self.spec_values().len() ==> #[trigger] self.spec_values()[i] != i32::MIN,
        ensures
            has_shape(&m, rows_of(self), cols_of(self)),
            m.spec_values() == self.spec_values().map_values(|v: i32| (-v) as i32),
    {
        let mut result = Self::from_slice(self);
        result.neg_mut();
        result
    }

    /// The rows, in order.
    fn row_iter(&self) -> (rows: Vec<Vec<i32>>)
        requires
            well_formed(self),
        ensures
            rows@.len() == rows_of(self),
            forall|r: int| 0 <= r < rows@.len() ==> (#[trigger] rows@[r])@ == row_of(self, r),
    {
        let (nrows, _ncols) = self.shape();
        let mut rows: Vec<Vec<i32>> = Vec::new();
        let mut r: usize = 0;
        while r < nrows
            invariant
                well_formed(self),
                nrows == rows_of(self),
                0 <= r <= nrows,
                rows@.len() == r,
                forall|p: int| 0 <= p < r ==> (#[trigger] rows@[p])@ == row_of(self, p),
            decreases nrows - r,
        {
            rows.push(self.get_row(r));
            r = r + 1;
        }
        rows
    }

    /// The columns, in order.
    fn col_iter(&self) -> (cols: Vec<Vec<i32>>)
        requires
            well_formed(self),
        ensures
            cols@.len() == cols_of(self),
            forall|c: int| 0 <= c < cols@.len() ==> (#[trigger] cols@[c])@ == col_of(self, c),
    {
        let (_nrows, ncols) = self.shape();
        let mut cols: Vec<Vec<i32>> = Vec::new();
        let mut c: usize = 0;
        while c < ncols
            invariant
                well_formed(self),
                ncols == cols_of(self),
                0 <= c <= ncols,
                cols@.len() == c,
                forall|p: int| 0 <= p < c ==> (#[trigger] cols@[p])@ == col_of(self, p),
            decreases ncols - c,
        {
            cols.push(self.get_col(c));
            c = c + 1;
        }
        cols
    }

    /// The product of this matrix, transposed when `a_transpose`, by `b`,
    /// transposed when `b_transpose`. With both transposed it is the
    /// transpose of `b` times this matrix, which must not be empty; with one
    /// transposed, that one must not be empty.
    fn ab(&self, a_transpose: bool, b: &Self, b_transpose: bool) -> (m: Self)
        requires
            well_formed(self),
            well_formed(b),
            op_cols(self, a_transpose) == op_rows(b, b_transpose),
            op_rows(self, a_transpose) * op_cols(b, b_transpose) <= usize::MAX,
            a_transpose && b_transpose ==> rows_of(b) > 0 && cols_of(self) > 0,
            a_transpose && !b_transpose ==> rows_of(self) > 0 && cols_of(self) > 0,
            !a_transpose && b_transpose ==> rows_of(b) > 0 && cols_of(b) > 0,
            forall|r: int, c: int|
                0 <= r < op_rows(self, a_transpose) && 0 <= c < op_cols(b, b_transpose) ==> dot_fits(
                    #[trigger] op_row(self, a_transpose, r),
                    #[trigger] op_col(b, b_transpose, c),
                ),
        ensures
            has_shape(&m, op_rows(self, a_transpose), op_cols(b, b_transpose)),
            forall|r: int, c: int|
                0 <= r < op_rows(self, a_transpose) && 0 <= c < op_cols(b, b_transpose) ==> #[trigger] at(&m, r, c)
                    == dot_prefix(
                    op_row(self, a_transpose, r),
                    op_col(b, b_transpose, c),
                    op_cols(self, a_transpose),
                ),
    {
        if a_transpose && b_transpose {
            proof {
                assert forall|r: int, c: int|
                    0 <= r < rows_of(b) && 0 <= c < cols_of(self) implies dot_fits(
                        #[trigger] row_of(b, r),
                        #[trigger] col_of(self, c),
                    ) by {
                    assert(op_row(self, true, c) =~= col_of(self, c));
                    assert(op_col(b, true, r) =~= row_of(b, r));
                    lemma_dot_fits_commutes(op_row(self, true, c), op_col(b, true, r));
                }
                assert(rows_of(b) * cols_of(self) == cols_of(self) * rows_of(b)) by (nonlinear_arith);
            }
            let p = b.matmul(self);
            let m = p.transpose();
            proof {
                assert forall|r: int, c: int|
                    0 <= r < op_rows(self, true) && 0 <= c < op_cols(b, true) implies #[trigger] at(&m, r, c)
                    == dot_prefix(op_row(self, true, r), op_col(b, true, c), op_cols(self, true)) by {
                    assert(op_row(self, true, r) =~= col_of(self, r));
                    assert(op_col(b, true, c) =~= row_of(b, c));
                    dot_commutes(row_of(b, c), col_of(self, r), cols_of(b));
                }
            }
            m
        } else if !a_transpose && b_transpose {
            let bt = b.transpose();
            proof {
                assert forall|r: int, c: int|
                    0 <= r < rows_of(self) && 0 <= c < cols_of(&bt) implies dot_fits(
                        #[trigger] row_of(self, r),
                        #[trigger] col_of(&bt, c),
                    ) by {
                    assert(op_row(self, false, r) =~= row_of(self, r));
                    assert(op_col(b, true, c) =~= col_of(&bt, c));
                }
            }
            let m = self.matmul(&bt);
            proof {
                assert forall|r: int, c: int|
                    0 <= r < op_rows(self, false) && 0 <= c < op_cols(b, true) implies #[trigger] at(&m, r, c)
                    == dot_prefix(op_row(self, false, r), op_col(b, true, c), op_cols(self, false)) by {
                    assert(op_row(self, false, r) =~= row_of(self, r));
                    assert(op_col(b, true, c) =~= col_of(&bt, c));
                }
            }
            m
        } else if a_transpose && !b_transpose {
            let at_ = self.transpose();
            proof {
                assert forall|r: int, c: int|
                    0 <= r < rows_of(&at_) && 0 <= c < cols_of(b) implies dot_fits(
                        #[trigger] row_of(&at_, r),
                        #[trigger] col_of(b, c),
                    ) by {
                    assert(op_row(self, true, r) =~= row_of(&at_, r));
                    assert(op_col(b, false, c) =~= col_of(b, c));
                }
            }
            let m = at_.matmul(b);
            proof {
                assert forall|r: int, c: int|
                    0 <= r < op_rows(self, true) && 0 <= c < op_cols(b, false) implies #[trigger] at(&m, r, c)
                    == dot_prefix(op_row(self, true, r), op_col(b, false, c), op_cols(self, true)) by {
                    assert(op_row(self, true, r) =~= row_of(&at_, r));
                    assert(op_col(b, false, c) =~= col_of(b, c));
                }
            }
            m
        } else {
            proof {
                assert forall|r: int, c: int|
                    0 <= r < rows_of(self) && 0 <= c < cols_of(b) implies dot_fits(
                        #[trigger] row_of(self, r),
                        #[trigger] col_of(b, c),
                    ) by {
                    assert(op_row(self, false, r) =~= row_of(self, r));
                    assert(op_col(b, false, c) =~= col_of(b, c));
                }
            }
            let m = self.matmul(b);
            proof {
                assert forall|r: int, c: int|
                    0 <= r < op_rows(self, false) && 0 <= c < op_cols(b, false) implies #[trigger] at(&m, r, c)
                    == dot_prefix(op_row(self, false, r), op_col(b, false, c), op_cols(self, false)) by {
                    assert(op_row(self, false, r) =~= row_of(self, r));
                    assert(op_col(b, false, c) =~= col_of(b, c));
                }
            }
            m
        }
    }

    /// A matrix of the same shape with `f` applied to each element.
    fn map<F: Fn(&i32) -> i32>(self, f: F) -> (m: Self)
        requires
            well_formed(&self),
            forall|i: int| 0 <= i < self.spec_values().len() ==> f.requires((&#[trigger] self.spec_values()[i],)),
        ensures
            has_shape(&m, rows_of(&self), cols_of(&self)),
            forall|i: int|
                0 <= i < self.spec_values().len() ==> f.ensures(
                    (&#[trigger] self.spec_values()[i],),
                    m.spec_values()[i],
                ),
    {
        let shape = self.shape();
        let (nrows, ncols) = shape;
        let n = shape.count();
        let mut v: Vec<i32> = Vec::new();
        let mut i: usize = 0;
        while i < n
            invariant
                well_formed(&self),
                shape == self.spec_shape(),
                (nrows, ncols) == shape,
                n == shape.size(),
                self.spec_values().len() == n,
                forall|k: int| 0 <= k < n ==> f.requires((&#[trigger] self.spec_values()[k],)),
                0 <= i <= n,
                v@.len() == i,
                forall|k: int| 0 <= k < i ==> f.ensures((&#[trigger] self.spec_values()[k],), v@[k]),
            decreases n - i,
        {
            let x = self.get(shape.pos_at(i));
            let y = f(x);
            v.push(y);
            i = i + 1;
        }
        let m = Self::from_iterator(v.as_slice(), nrows, ncols, 0);
        m
    }
}

impl Array2 for DenseMatrix {
    fn fill(nrows: usize, ncols: usize, value: i32) -> (m: Self) {
        let v = <Vec<i32> as crate::array1::Array1>::fill(nrows * ncols, value);
        DenseMatrix::from_parts(nrows, ncols, v)
    }

    fn slice(&self, rows: Range<usize>, cols: Range<usize>) -> (m: Self) {
        let nrows = rows.end - rows.start;
        let ncols = cols.end - cols.start;
        let mut v: Vec<i32> = Vec::new();
        let mut r: usize = 0;
        proof {
            assert(nrows * ncols <= rows_of(self) * cols_of(self)) by (nonlinear_arith)
                requires
                    nrows <= rows_of(self),
                    ncols <= cols_of(self),
            ;
        }
        while r < nrows
            invariant
                well_formed(self),
                nrows == rows.end - rows.start,
                ncols == cols.end - cols.start,
                rows.start <= rows.end <= rows_of(self),
                cols.start <= cols.end <= cols_of(self),
                nrows * ncols <= usize::MAX,
                0 <= r <= nrows,
                v@.len() == r * ncols,
                forall|p: int, q: int|
                    0 <= p < r && 0 <= q < ncols ==> v@[row_major(p, q, ncols as int)] == #[trigger] at(
                        self,
                        rows.start + p,
                        cols.start + q,
                    ),
            decreases nrows - r,
        {
            let mut c: usize = 0;
            while c < ncols
                invariant
                    well_formed(self),
                    nrows == rows.end - rows.start,
                    ncols == cols.end - cols.start,
                    rows.start <= rows.end <= rows_of(self),
                    cols.start <= cols.end <= cols_of(self),
                    nrows * ncols <= usize::MAX,
                    0 <= r < nrows,
                    0 <= c <= ncols,
                    v@.len() == r * ncols + c,
                    forall|p: int, q: int|
                        0 <= p < r && 0 <= q < ncols ==> v@[row_major(p, q, ncols as int)] == #[trigger] at(
                            self,
                            rows.start + p,
                            cols.start + q,
                        ),
                    forall|q: int|
                        0 <= q < c ==> v@[row_major(r as int, q, ncols as int)] == #[trigger] at(
                            self,
                            rows.start + r,
                            cols.start + q,
                        ),
                decreases ncols - c,
            {
                let x = *self.get((rows.start + r, cols.start + c));
                let ghost before = v@;
                v.push(x);
                proof {
                    assert forall|p: int, q: int|
                        0 <= p < r && 0 <= q < ncols implies v@[row_major(p, q, ncols as int)] == #[trigger] at(
                            self,
                            rows.start + p,
                            cols.start + q,
                        ) by {
                        lemma_row_major_bounds(p, q, r as int, ncols as int);
                        assert(v@[row_major(p, q, ncols as int)] == before[row_major(p, q, ncols as int)]);
                    }
                    assert forall|q: int|
                        0 <= q < c + 1 implies v@[row_major(r as int, q, ncols as int)] == #[trigger] at(
                            self,
                            rows.start + r,
                            cols.start + q,
                        ) by {
                        if q < c {
                            assert(v@[row_major(r as int, q, ncols as int)] == before[row_major(r as int, q, ncols as int)]);
                        }
                    }
                }
                c = c + 1;
            }
            proof {
                assert(v@.len() == (r + 1) * ncols) by (nonlinear_arith)
                    requires
                        v@.len() == r * ncols + ncols,
                ;
            }
            r = r + 1;
        }
        let m = DenseMatrix::from_parts(nrows, ncols, v);
        proof {
            assert forall|p: int, q: int|
                0 <= p < nrows && 0 <= q < ncols implies #[trigger] at(&m, p, q) == at(
                    self,
                    rows.start + p,
                    cols.start + q,
                ) by {
                lemma_row_major_bounds(p, q, nrows as int, ncols as int);
            }
        }
        m
    }

    fn from_iterator(iter: &[i32], nrows: usize, ncols: usize, axis: u8) -> (m: Self) {
        let len = iter.len();
        let n = nrows * ncols;
        let mut v: Vec<i32> = Vec::new();
        let mut k: usize = 0;
        while k < n
            invariant
                n == nrows * ncols,
                n <= iter@.len(),
                0 <= k <= n,
                v@.len() == k,
                forall|q: int| 0 <= q < k ==> #[trigger] v@[q] == filled(iter@, nrows as int, ncols as int, axis)[q],
            decreases n - k,
        {
            if axis == 0 {
                v.push(iter[k]);
            } else {
                proof {
                    lemma_row_major_split(k as int, nrows as int, ncols as int);
                    lemma_row_major_bounds((k % ncols) as int, (k / ncols) as int, ncols as int, nrows as int);
                    assert(ncols * nrows == nrows * ncols) by (nonlinear_arith);
                }
                v.push(iter[(k % ncols) * nrows + k / ncols]);
            }
            k = k + 1;
        }
        assert(v@ =~= filled(iter@, nrows as int, ncols as int, axis));
        DenseMatrix::from_parts(nrows, ncols, v)
    }

    fn get_row(&self, row: usize) -> (v: Vec<i32>) {
        let (nrows, ncols) = self.shape();
        let mut v: Vec<i32> = Vec::new();
        let mut c: usize = 0;
        while c < ncols
            invariant
                well_formed(self),
                (nrows, ncols) == self.spec_shape(),
                row < nrows,
                0 <= c <= ncols,
                v@.len() == c,
                forall|q: int| 0 <= q < c ==> #[trigger] v@[q] == at(self, row as int, q),
            decreases ncols - c,
        {
            v.push(*self.get((row, c)));
            c = c + 1;
        }
        assert(v@ =~= row_of(self, row as int));
        v
    }

    fn get_col(&self, col: usize) -> (v: Vec<i32>) {
        let (nrows, ncols) = self.shape();
        let mut v: Vec<i32> = Vec::new();
        let mut r: usize = 0;
        while r < nrows
            invariant
                well_formed(self),
                (nrows, ncols) == self.spec_shape(),
                col < ncols,
                0 <= r <= nrows,
                v@.len() == r,
                forall|q: int| 0 <= q < r ==> #[trigger] v@[q] == at(self, q, col as int),
            decreases nrows - r,
        {
            v.push(*self.get((r, col)));
            r = r + 1;
        }
        assert(v@ =~= col_of(self, col as int));
        v
    }
}

} // verus!
