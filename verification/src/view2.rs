//! Operations on two-dimensional arrays: reductions along an axis and
//! transformations in place.
use crate::array::{well_formed, Array, MutArray, Shaped};
use crate::matrix::{at, cols_of, rows_of, DenseMatrix};
use crate::num::{abs_int, div_elem, div_ok, div_trunc, fits, signed_abs};
use crate::shape::{lemma_row_major_bounds, row_major, Shape};
use crate::view1::{is_first_argmax, is_max_of, is_min_of, sum_fits, sum_prefix, ArrayView1};
use vstd::prelude::*;

verus! {

/// The elements that a reduction along `axis` combines into its `i`-th
/// result: column `i` for axis 0, row `i` otherwise.
pub open spec fn line<A: Shaped<(usize, usize)> + ?Sized>(a: &A, axis: u8, i: int) -> Seq<i32> {
    line_in(a.spec_values(), a.spec_shape(), axis, i)
}

/// Column `i` (axis 0) or row `i` (other axes) of the matrix of the given
/// shape whose elements, row after row, are `values`.
pub open spec fn line_in(values: Seq<i32>, shape: (usize, usize), axis: u8, i: int) -> Seq<i32> {
    if axis == 0 {
        Seq::new(shape.0 as nat, |r: int| values[row_major(r, i, shape.1 as int)])
    } else {
        Seq::new(shape.1 as nat, |c: int| values[row_major(i, c, shape.1 as int)])
    }
}

/// Number of results of a reduction along `axis`: the number of columns for
/// axis 0, of rows otherwise.
pub open spec fn line_count<A: Shaped<(usize, usize)> + ?Sized>(a: &A, axis: u8) -> int {
    if axis == 0 {
        cols_of(a)
    } else {
        rows_of(a)
    }
}

/// Length of each line along `axis`: the number of rows for axis 0, of
/// columns otherwise.
pub open spec fn line_len<A: Shaped<(usize, usize)> + ?Sized>(a: &A, axis: u8) -> int {
    if axis == 0 {
        rows_of(a)
    } else {
        cols_of(a)
    }
}

/// Column `i` (axis 0) or row `i` (any other axis) of `a`.
fn line_values<A: Array<(usize, usize)> + ?Sized>(a: &A, axis: u8, i: usize) -> (v: Vec<i32>)
    requires
        well_formed(a),
        0 <= i < line_count(a, axis),
    ensures
        v@ == line(a, axis, i as int),
{
    let (nrows, ncols) = a.shape();
    let len = if axis == 0 {
        nrows
    } else {
        ncols
    };
    let mut v: Vec<i32> = Vec::new();
    let mut k: usize = 0;
    while k < len
        invariant
            well_formed(a),
            (nrows, ncols) == a.spec_shape(),
            0 <= i < line_count(a, axis),
            len == (if axis == 0 { nrows } else { ncols }),
            0 <= k <= len,
            v@.len() == k,
            forall|q: int| 0 <= q < k ==> #[trigger] v@[q] == line(a, axis, i as int)[q],
        decreases len - k,
    {
        let pos = if axis == 0 {
            (k, i)
        } else {
            (i, k)
        };
        let x = *a.get(pos);
        v.push(x);
        k = k + 1;
    }
    assert(v@ =~= line(a, axis, i as int));
    v
}

/// Reductions along an axis of a two-dimensional array.
pub trait ArrayView2: Array<(usize, usize)> {
    /// The largest element of each column (axis 0) or row (other axes);
    /// `i32::MIN` for an empty one.
    fn max(&self, axis: u8) -> (r: Vec<i32>)
        requires
            well_formed(self),
        ensures
            r@.len() == line_count(self, axis),
            forall|i: int| 0 <= i < r@.len() ==> is_max_of(line(self, axis, i), #[trigger] r@[i]),
    {
        let (nrows, ncols) = self.shape();
        let count = if axis == 0 {
            ncols
        } else {
            nrows
        };
        let mut r: Vec<i32> = Vec::new();
        let mut i: usize = 0;
        while i < count
            invariant
                well_formed(self),
                count == line_count(self, axis),
                0 <= i <= count,
                r@.len() == i,
                forall|k: int| 0 <= k < i ==> is_max_of(line(self, axis, k), #[trigger] r@[k]),
            decreases count - i,
        {
            let v = line_values(self, axis, i);
            r.push(ArrayView1::max(&v));
            i = i + 1;
        }
        r
    }

    /// The sum of each column (axis 0) or row (other axes).
    fn sum(&self, axis: u8) -> (r: Vec<i32>)
        requires
            well_formed(self),
            forall|i: int| 0 <= i < line_count(self, axis) ==> sum_fits(#[trigger] line(self, axis, i)),
        ensures
            r@.len() == line_count(self, axis),
            forall|i: int|
                0 <= i < r@.len() ==> #[trigger] r@[i] == sum_prefix(
                    line(self, axis, i),
                    line(self, axis, i).len() as int,
                ),
    {
        let (nrows, ncols) = self.shape();
        let count = if axis == 0 {
            ncols
        } else {
            nrows
        };
        let mut r: Vec<i32> = Vec::new();
        let mut i: usize = 0;
        while i < count
            invariant
                well_formed(self),
                count == line_count(self, axis),
                forall|k: int| 0 <= k < line_count(self, axis) ==> sum_fits(#[trigger] line(self, axis, k)),
                0 <= i <= count,
                r@.len() == i,
                forall|k: int|
                    0 <= k < i ==> #[trigger] r@[k] == sum_prefix(
                        line(self, axis, k),
                        line(self, axis, k).len() as int,
                    ),
            decreases count - i,
        {
            let v = line_values(self, axis, i);
            assert(sum_fits(line(self, axis, i as int)));
            r.push(ArrayView1::sum(&v));
            i = i + 1;
        }
        r
    }

    /// The smallest element of each column (axis 0) or row (other axes);
    /// `i32::MAX` for an empty one.
    fn min(&self, axis: u8) -> (r: Vec<i32>)
        requires
            well_formed(self),
        ensures
            r@.len() == line_count(self, axis),
            forall|i: int| 0 <= i < r@.len() ==> is_min_of(line(self, axis, i), #[trigger] r@[i]),
    {
        let (nrows, ncols) = self.shape();
        let count = if axis == 0 {
            ncols
        } else {
            nrows
        };
        let mut r: Vec<i32> = Vec::new();
        let mut i: usize = 0;
        while i < count
            invariant
                well_formed(self),
                count == line_count(self, axis),
                0 <= i <= count,
                r@.len() == i,
                forall|k: int| 0 <= k < i ==> is_min_of(line(self, axis, k), #[trigger] r@[k]),
            decreases count - i,
        {
            let v = line_values(self, axis, i);
            r.push(ArrayView1::min(&v));
            i = i + 1;
        }
        r
    }

    /// For each column (axis 0) or row (other axes), the first position
    /// within it of a largest element; `0` for an empty one.
    fn argmax(&self, axis: u8) -> (r: Vec<usize>)
        requires
            well_formed(self),
        ensures
            r@.len() == line_count(self, axis),
            forall|i: int| 0 <= i < r@.len() ==> is_first_argmax(line(self, axis, i), #[trigger] r@[i] as int),
    {
        let (nrows, ncols) = self.shape();
        let count = if axis == 0 {
            ncols
        } else {
            nrows
        };
        let mut r: Vec<usize> = Vec::new();
        let mut i: usize = 0;
        while i < count
            invariant
                well_formed(self),
                count == line_count(self, axis),
                0 <= i <= count,
                r@.len() == i,
                forall|k: int| 0 <= k < i ==> is_first_argmax(line(self, axis, k), #[trigger] r@[k] as int),
            decreases count - i,
        {
            let v = line_values(self, axis, i);
            r.push(ArrayView1::argmax(&v));
            i = i + 1;
        }
        r
    }
}

/// In-place transformations of a two-dimensional array.
pub trait MutArrayView2: MutArray<(usize, usize)> + ArrayView2 {
    /// Copies the elements of `other` over those of this matrix, both taken
    /// row after row, as many as the smaller of the two holds.
    fn copy_from<O: Array<(usize, usize)> + ?Sized>(&mut self, other: &O)
        requires
            well_formed(old(self)),
            well_formed(other),
        ensures
            final(self).spec_shape() == old(self).spec_shape(),
            final(self).spec_values() == Seq::new(
                old(self).spec_values().len(),
                |i: int|
                    if i < other.spec_values().len() {
                        other.spec_values()[i]
                    } else {
                        old(self).spec_values()[i]
                    },
            ),
    {
        let shape = self.shape();
        let oshape = other.shape();
        let n = shape.count();
        let m = oshape.count();
        let k = if n < m {
            n
        } else {
            m
        };
        let ghost v0 = self.spec_values();
        let mut i: usize = 0;
        while i < k
            invariant
                well_formed(self),
                well_formed(other),
                self.spec_shape() == shape,
                other.spec_shape() == oshape,
                n == shape.size(),
                m == oshape.size(),
                v0 == old(self).spec_values(),
                self.spec_values().len() == n,
                k <= n,
                k <= m,
                k == n || k == m,
                0 <= i <= k,
                forall|p: int| 0 <= p < i ==> #[trigger] self.spec_values()[p] == other.spec_values()[p],
                forall|p: int| i <= p < n ==> #[trigger] self.spec_values()[p] == v0[p],
            decreases k - i,
        {
            let x = *other.get(oshape.pos_at(i));
            self.set(shape.pos_at(i), x);
            i = i + 1;
        }
        assert(self.spec_values() =~= Seq::new(
            v0.len(),
            |i: int|
                if i < other.spec_values().len() {
                    other.spec_values()[i]
                } else {
                    v0[i]
                },
        ));
    }

    /// Replaces every element by its absolute value.
    fn abs_mut(&mut self)
        requires
            well_formed(old(self)),
            forall|i: int| 0 <= i < old(self).spec_values().len() ==> #[trigger] old(self).spec_values()[i] != i32::MIN,
        ensures
            final(self).spec_shape() == old(self).spec_shape(),
            final(self).spec_values() == old(self).spec_values().map_values(
                |v: i32| abs_int(v as int) as i32,
            ),
    {
        let shape = self.shape();
        let n = shape.count();
        let ghost v0 = self.spec_values();
        let mut i: usize = 0;
        while i < n
            invariant
                well_formed(self),
                self.spec_shape() == shape,
                n == shape.size(),
                v0 == old(self).spec_values(),
                self.spec_values().len() == n,
                forall|p: int| 0 <= p < n ==> #[trigger] v0[p] != i32::MIN,
                0 <= i <= n,
                forall|p: int| 0 <= p < i ==> #[trigger] self.spec_values()[p] == abs_int(v0[p] as int) as i32,
                forall|p: int| i <= p < n ==> #[trigger] self.spec_values()[p] == v0[p],
            decreases n - i,
        {
            let pos = shape.pos_at(i);
            let x = *self.get(pos);
            self.set(pos, signed_abs(x));
            i = i + 1;
        }
        assert(self.spec_values() =~= v0.map_values(|v: i32| abs_int(v as int) as i32));
    }

    /// Replaces every element by its negation.
    fn neg_mut(&mut self)
        requires
            well_formed(old(self)),
            forall|i: int| 0 <= i < old(self).spec_values().len() ==> #[trigger] old(self).spec_values()[i] != i32::MIN,
        ensures
            final(self).spec_shape() == old(self).spec_shape(),
            final(self).spec_values() == old(self).spec_values().map_values(|v: i32| (-v) as i32),
    {
        let shape = self.shape();
        let n = shape.count();
        let ghost v0 = self.spec_values();
        let mut i: usize = 0;
        while i < n
            invariant
                well_formed(self),
                self.spec_shape() == shape,
                n == shape.size(),
                v0 == old(self).spec_values(),
                self.spec_values().len() == n,
                forall|p: int| 0 <= p < n ==> #[trigger] v0[p] != i32::MIN,
                0 <= i <= n,
                forall|p: int| 0 <= p < i ==> #[trigger] self.spec_values()[p] == (-v0[p]) as i32,
                forall|p: int| i <= p < n ==> #[trigger] self.spec_values()[p] == v0[p],
            decreases n - i,
        {
            let pos = shape.pos_at(i);
            let x = *self.get(pos);
            self.set(pos, -x);
            i = i + 1;
        }
        assert(self.spec_values() =~= v0.map_values(|v: i32| (-v) as i32));
    }

    /// Centres and scales each column (axis 0) or row (other axes): the
    /// element `x` of column or row `i` becomes `(x - mean[i]) / std[i]`,
    /// rounded toward zero. `mean` and `std` are read only when the lines
    /// are not empty.
    fn scale_mut(&mut self, mean: &[i32], std: &[i32], axis: u8)
        requires
            well_formed(old(self)),
            line_len(old(self), axis) > 0 ==> mean@.len() >= line_count(old(self), axis),
            line_len(old(self), axis) > 0 ==> std@.len() >= line_count(old(self), axis),
            forall|i: int, k: int|
                0 <= i < line_count(old(self), axis) && 0 <= k < line(old(self), axis, i).len() ==> {
                    &&& fits(#[trigger] line(old(self), axis, i)[k] - mean@[i])
                    &&& div_ok((line(old(self), axis, i)[k] - mean@[i]) as i32, std@[i])
                },
        ensures
            final(self).spec_shape() == old(self).spec_shape(),
            forall|i: int, k: int|
                0 <= i < line_count(old(self), axis) && 0 <= k < line(old(self), axis, i).len()
                    ==> #[trigger] line(final(self), axis, i)[k] == div_trunc(
                    line(old(self), axis, i)[k] - mean@[i],
                    std@[i] as int,
                ),
    {
        let (nrows, ncols) = self.shape();
        let (n, m) = if axis == 0 {
            (ncols, nrows)
        } else {
            (nrows, ncols)
        };
        let ghost v0 = old(self).spec_values();
        let mut i: usize = 0;
        while i < n
            invariant
                well_formed(self),
                self.spec_shape() == (nrows, ncols),
                v0 == old(self).spec_values(),
                v0.len() == nrows * ncols,
                n == line_count(old(self), axis),
                old(self).spec_shape() == (nrows, ncols),
                m == (if axis == 0 { nrows } else { ncols }),
                m > 0 ==> mean@.len() >= n,
                m > 0 ==> std@.len() >= n,
                forall|a: int, k: int|
                    0 <= a < n && 0 <= k < m ==> {
                        &&& fits(#[trigger] line(old(self), axis, a)[k] - mean@[a])
                        &&& div_ok((line(old(self), axis, a)[k] - mean@[a]) as i32, std@[a])
                    },
                0 <= i <= n,
                forall|a: int, k: int|
                    0 <= a < i && 0 <= k < m ==> #[trigger] line_in(self.spec_values(), (nrows, ncols), axis, a)[k] == div_trunc(
                        line(old(self), axis, a)[k] - mean@[a],
                        std@[a] as int,
                    ),
                forall|a: int, k: int|
                    i <= a < n && 0 <= k < m ==> #[trigger] line_in(self.spec_values(), (nrows, ncols), axis, a)[k] == line(old(self), axis, a)[k],
            decreases n - i,
        {
            let mut j: usize = 0;
            while j < m
                invariant
                    well_formed(self),
                    self.spec_shape() == (nrows, ncols),
                    v0 == old(self).spec_values(),
                    v0.len() == nrows * ncols,
                    n == line_count(old(self), axis),
                    old(self).spec_shape() == (nrows, ncols),
                    m == (if axis == 0 { nrows } else { ncols }),
                    m > 0 ==> mean@.len() >= n,
                    m > 0 ==> std@.len() >= n,
                    forall|a: int, k: int|
                        0 <= a < n && 0 <= k < m ==> {
                            &&& fits(#[trigger] line(old(self), axis, a)[k] - mean@[a])
                            &&& div_ok((line(old(self), axis, a)[k] - mean@[a]) as i32, std@[a])
                        },
                    0 <= i < n,
                    0 <= j <= m,
                    forall|a: int, k: int|
                        0 <= a < i && 0 <= k < m ==> #[trigger] line_in(self.spec_values(), (nrows, ncols), axis, a)[k] == div_trunc(
                            line(old(self), axis, a)[k] - mean@[a],
                            std@[a] as int,
                        ),
                    forall|k: int|
                        0 <= k < j ==> #[trigger] line_in(self.spec_values(), (nrows, ncols), axis, i as int)[k] == div_trunc(
                            line(old(self), axis, i as int)[k] - mean@[i as int],
                            std@[i as int] as int,
                        ),
                    forall|k: int|
                        j <= k < m ==> #[trigger] line_in(self.spec_values(), (nrows, ncols), axis, i as int)[k] == line(old(self), axis, i as int)[k],
                    forall|a: int, k: int|
                        i < a < n && 0 <= k < m ==> #[trigger] line_in(self.spec_values(), (nrows, ncols), axis, a)[k] == line(old(self), axis, a)[k],
                decreases m - j,
            {
                let pos = if axis == 0 {
                    (j, i)
                } else {
                    (i, j)
                };
                let ghost before = self.spec_values();
                let x = *self.get(pos);
                assert(line_in(self.spec_values(), (nrows, ncols), axis, i as int)[j as int] == x);
                assert(x == line(old(self), axis, i as int)[j as int]);
                assert(fits(line(old(self), axis, i as int)[j as int] - mean@[i as int]));
                let y = div_elem(x - mean[i], std[i]);
                self.set(pos, y);
                proof {
                    lemma_row_major_bounds(pos.0 as int, pos.1 as int, nrows as int, ncols as int);
                    assert forall|a: int, k: int|
                        0 <= a < n && 0 <= k < m && !(a == i && k == j) implies #[trigger] line_in(self.spec_values(), (nrows, ncols), axis, a)[k]
                        == line_in(before, (nrows, ncols), axis, a)[k] by {
                        let (r, c) = if axis == 0 {
                            (k, a)
                        } else {
                            (a, k)
                        };
                        lemma_row_major_bounds(r, c, nrows as int, ncols as int);
                        if row_major(r, c, ncols as int) == row_major(pos.0 as int, pos.1 as int, ncols as int) {
                            crate::shape::lemma_row_major_unique(r, c, ncols as int);
                            crate::shape::lemma_row_major_unique(pos.0 as int, pos.1 as int, ncols as int);
                        }
                    }
                }
                j = j + 1;
            }
            i = i + 1;
        }
        assert forall|a: int, k: int|
            0 <= a < line_count(old(self), axis) && 0 <= k < line(old(self), axis, a).len()
                implies #[trigger] line(self, axis, a)[k] == div_trunc(
                line(old(self), axis, a)[k] - mean@[a],
                std@[a] as int,
            ) by {
            assert(line(self, axis, a)[k] == line_in(self.spec_values(), (nrows, ncols), axis, a)[k]);
        }
    }
}

impl ArrayView2 for DenseMatrix {

}

impl MutArrayView2 for DenseMatrix {

}

} // verus!
