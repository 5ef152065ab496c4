//! Owned one-dimensional arrays: construction, views of a range, and
//! operations that return a new array.
use crate::array::{well_formed, Array, MutArray, Shaped};
use crate::num::{abs_int, div_ok, div_trunc, fits};
use crate::sorting::{is_permutation, rearranged, sort_positions, sorted};
use crate::view1::MutArrayView1;
use core::ops::Range;
use vstd::prelude::*;

verus! {

/// An owned one-dimensional array of `i32`.
pub trait Array1: MutArrayView1 + Sized + Clone {
    /// The elements in `range`, as a view into this array.
    fn slice<'a>(&'a self, range: Range<usize>) -> (r: &'a [i32])
        requires
            well_formed(self),
            range.start <= range.end <= self.spec_values().len(),
        ensures
            r@ == self.spec_values().subrange(range.start as int, range.end as int),
    ;

    /// The elements in `range`, as a view into this array through which they
    /// can be changed.
    fn slice_mut<'a>(&'a mut self, range: Range<usize>) -> (r: &'a mut [i32])
        requires
            well_formed(old(self)),
            range.start <= range.end <= old(self).spec_values().len(),
        ensures
            r@ == old(self).spec_values().subrange(range.start as int, range.end as int),
            final(self).spec_values() == old(self).spec_values().subrange(0, range.start as int)
                + final(r)@ + old(self).spec_values().subrange(
                range.end as int,
                old(self).spec_values().len() as int,
            ),
            well_formed(final(self)),
    ;

    /// An array of `len` copies of `value`.
    fn fill(len: usize, value: i32) -> (r: Self)
        ensures
            well_formed(&r),
            r.spec_values() == Seq::new(len as nat, |i: int| value),
    ;

    /// An array of the first `len` elements of `iter`.
    fn from_iterator(iter: &[i32], len: usize) -> (r: Self)
        requires
            len <= iter@.len(),
        ensures
            well_formed(&r),
            r.spec_values() == iter@.subrange(0, len as int),
    ;

    /// An array of the elements of `slice`.
    fn from_vec_slice(slice: &[i32]) -> (r: Self)
        ensures
            well_formed(&r),
            r.spec_values() == slice@,
    ;

    /// An array of the elements of another one-dimensional array.
    fn from_slice<O: Array<usize> + ?Sized>(slice: &O) -> (r: Self)
        requires
            well_formed(slice),
        ensures
            well_formed(&r),
            r.spec_values() == slice.spec_values(),
    ;

    /// An array of `len` zeros.
    fn zeros(len: usize) -> (r: Self)
        ensures
            well_formed(&r),
            r.spec_values() == Seq::new(len as nat, |i: int| 0i32),
    {
        Self::fill(len, 0)
    }

    /// An array of `len` ones.
    fn ones(len: usize) -> (r: Self)
        ensures
            well_formed(&r),
            r.spec_values() == Seq::new(len as nat, |i: int| 1i32),
    {
        Self::fill(len, 1)
    }

    /// A copy with `x` added to every element.
    fn add_scalar(&self, x: i32) -> (r: Self)
        requires
            well_formed(self),
            forall|i: int| 0 <= i < self.spec_values().len() ==> fits(#[trigger] self.spec_values()[i] + x),
        ensures
            well_formed(&r),
            r.spec_values() == self.spec_values().map_values(|v: i32| (v + x) as i32),
    {
        let mut result = Self::from_slice(self);
        result.add_scalar_mut(x);
        result
    }

    /// A copy with `x` subtracted from every element.
    fn sub_scalar(&self, x: i32) -> (r: Self)
        requires
            well_formed(self),
            forall|i: int| 0 <= i < self.spec_values().len() ==> fits(#[trigger] self.spec_values()[i] - x),
        ensures
            well_formed(&r),
            r.spec_values() == self.spec_values().map_values(|v: i32| (v - x) as i32),
    {
        let mut result = Self::from_slice(self);
        result.sub_scalar_mut(x);
        result
    }

    /// A copy with every element divided by `x`, rounding toward zero.
    fn div_scalar(&self, x: i32) -> (r: Self)
        requires
            well_formed(self),
            forall|i: int| 0 <= i < self.spec_values().len() ==> div_ok(#[trigger] self.spec_values()[i], x),
        ensures
            well_formed(&r),
            r.spec_values() == self.spec_values().map_values(|v: i32| div_trunc(v as int, x as int) as i32),
    {
        let mut result = Self::from_slice(self);
        result.div_scalar_mut(x);
        result
    }

    /// A copy with every element multiplied by `x`.
    fn mul_scalar(&self, x: i32) -> (r: Self)
        requires
            well_formed(self),
            forall|i: int| 0 <= i < self.spec_values().len() ==> fits(#[trigger] self.spec_values()[i] * x),
        ensures
            well_formed(&r),
            r.spec_values() == self.spec_values().map_values(|v: i32| (v * x) as i32),
    {
        let mut result = Self::from_slice(self);
        result.mul_scalar_mut(x);
        result
    }

    /// The element-wise sum with `other`, which has the same length.
    fn add<O: Array<usize> + ?Sized>(&self, other: &O) -> (r: Self)
        requires
            well_formed(self),
            well_formed(other),
            self.spec_shape() == other.spec_shape(),
            forall|i: int|
                0 <= i < self.spec_values().len() ==> fits(#[trigger] self.spec_values()[i] + other.spec_values()[i]),
        ensures
            well_formed(&r),
            r.spec_values() == Seq::new(
                self.spec_values().len(),
                |i: int| (self.spec_values()[i] + other.spec_values()[i]) as i32,
            ),
    {
        let mut result = Self::from_slice(self);
        result.add_mut(other);
        result
    }

    /// The element-wise difference with `other`, which has the same length.
    fn sub<O: Array<usize> + ?Sized>(&self, other: &O) -> (r: Self)
        requires
            well_formed(self),
            well_formed(other),
            self.spec_shape() == other.spec_shape(),
            forall|i: int|
                0 <= i < self.spec_values().len() ==> fits(#[trigger] self.spec_values()[i] - other.spec_values()[i]),
        ensures
            well_formed(&r),
            r.spec_values() == Seq::new(
                self.spec_values().len(),
                |i: int| (self.spec_values()[i] - other.spec_values()[i]) as i32,
            ),
    {
        let mut result = Self::from_slice(self);
        result.sub_mut(other);
        result
    }

    /// The element-wise product with `other`, which has the same length.
    fn mul<O: Array<usize> + ?Sized>(&self, other: &O) -> (r: Self)
        requires
            well_formed(self),
            well_formed(other),
            self.spec_shape() == other.spec_shape(),
            forall|i: int|
                0 <= i < self.spec_values().len() ==> fits(#[trigger] self.spec_values()[i] * other.spec_values()[i]),
        ensures
            well_formed(&r),
            r.spec_values() == Seq::new(
                self.spec_values().len(),
                |i: int| (self.spec_values()[i] * other.spec_values()[i]) as i32,
            ),
    {
        let mut result = Self::from_slice(self);
        result.mul_mut(other);
        result
    }

    /// The element-wise quotient by `other`, which has the same length,
    /// rounding toward zero.
    fn div<O: Array<usize> + ?Sized>(&self, other: &O) -> (r: Self)
        requires
            well_formed(self),
            well_formed(other),
            self.spec_shape() == other.spec_shape(),
            forall|i: int|
                0 <= i < self.spec_values().len() ==> div_ok(#[trigger] self.spec_values()[i], other.spec_values()[i]),
        ensures
            well_formed(&r),
            r.spec_values() == Seq::new(
                self.spec_values().len(),
                |i: int| div_trunc(self.spec_values()[i] as int, other.spec_values()[i] as int) as i32,
            ),
    {
        let mut result = Self::from_slice(self);
        result.div_mut(other);
        result
    }

    /// The elements at the positions `index`, in that order.
    fn take(&self, index: &[usize]) -> (r: Self)
        requires
            well_formed(self),
            forall|k: int| 0 <= k < index@.len() ==> #[trigger] index@[k] < self.spec_values().len(),
        ensures
            well_formed(&r),
            r.spec_values() == Seq::new(index@.len(), |k: int| self.spec_values()[index@[k] as int]),
    {
        let mut v: Vec<i32> = Vec::new();
        let mut k: usize = 0;
        while k < index.len()
            invariant
                well_formed(self),
                forall|q: int| 0 <= q < index@.len() ==> #[trigger] index@[q] < self.spec_values().len(),
                0 <= k <= index@.len(),
                v@.len() == k,
                forall|q: int| 0 <= q < k ==> #[trigger] v@[q] == self.spec_values()[index@[q] as int],
            decreases index@.len() - k,
        {
            let x = *self.get(index[k]);
            v.push(x);
            k = k + 1;
        }
        assert(v@ =~= Seq::new(index@.len(), |k: int| self.spec_values()[index@[k] as int]));
        Self::from_iterator(v.as_slice(), index.len())
    }

    /// A copy with every element replaced by its absolute value.
    fn abs(&self) -> (r: Self)
        requires
            well_formed(self),
            forall|i: int| 0 <= i < self.spec_values().len() ==> #[trigger] self.spec_values()[i] != i32::MIN,
        ensures
            well_formed(&r),
            r.spec_values() == self.spec_values().map_values(|v: i32| abs_int(v as int) as i32),
    {
        let mut result = Self::from_slice(self);
        result.abs_mut();
        result
    }

    /// A copy with every element negated.
    fn neg(&self) -> (r: Self)
        requires
            well_formed(self),
            forall|i: int| 0 <= i < self.spec_values().len() ==> #[trigger] self.spec_values()[i] != i32::MIN,
        ensures
            well_formed(&r),
            r.spec_values() == self.spec_values().map_values(|v: i32| (-v) as i32),
    {
        let mut result = Self::from_slice(self);
        result.neg_mut();
        result
    }

    /// The positions of the elements in ascending order of their values:
    /// listing the elements at `index[0]`, `index[1]`, ... lists them sorted.
    fn argsort(&self) -> (index: Vec<usize>)
        requires
            well_formed(self),
            0 < self.spec_values().len() <= i32::MAX,
        ensures
            index@.len() == self.spec_values().len(),
            is_permutation(index@),
            forall|p: int, q: int|
                0 <= p < q < index@.len() ==> self.spec_values()[#[trigger] index@[p] as int]
                    <= self.spec_values()[#[trigger] index@[q] as int],
            index@ == sort_positions(self.spec_values()),
            self.spec_values().len() < 8 ==> forall|p: int, q: int|
                0 <= p < q < index@.len() && self.spec_values()[#[trigger] index@[p] as int]
                    == self.spec_values()[#[trigger] index@[q] as int] ==> index@[p] < index@[q],
    {
        let mut v = Self::from_slice(self);
        let index = v.argsort_mut();
        proof {
            let s = v.spec_values();
            assert(rearranged(s, index@, self.spec_values()));
            assert forall|p: int, q: int|
                0 <= p < q < index@.len() implies self.spec_values()[#[trigger] index@[p] as int]
                <= self.spec_values()[#[trigger] index@[q] as int] by {
                assert(s[p] <= s[q]);
            }
        }
        index
    }

    /// An array of `f` applied to each element, in order.
    fn map<F: Fn(&i32) -> i32>(self, f: F) -> (r: Self)
        requires
            well_formed(&self),
            forall|i: int| 0 <= i < self.spec_values().len() ==> f.requires((&#[trigger] self.spec_values()[i],)),
        ensures
            well_formed(&r),
            r.spec_values().len() == self.spec_values().len(),
            forall|i: int|
                0 <= i < self.spec_values().len() ==> f.ensures(
                    (&#[trigger] self.spec_values()[i],),
                    r.spec_values()[i],
                ),
    {
        let n = self.shape();
        let mut v: Vec<i32> = Vec::new();
        let mut i: usize = 0;
        while i < n
            invariant
                well_formed(&self),
                n == self.spec_shape(),
                self.spec_values().len() == n,
                forall|k: int| 0 <= k < n ==> f.requires((&#[trigger] self.spec_values()[k],)),
                0 <= i <= n,
                v@.len() == i,
                forall|k: int| 0 <= k < i ==> f.ensures((&#[trigger] self.spec_values()[k],), v@[k]),
            decreases n - i,
        {
            let x = self.get(i);
            let y = f(x);
            v.push(y);
            i = i + 1;
        }
        Self::from_vec_slice(v.as_slice())
    }
}

impl Array1 for Vec<i32> {
    fn slice<'a>(&'a self, range: Range<usize>) -> (r: &'a [i32]) {
        vstd::slice::slice_subrange(self.as_slice(), range.start, range.end)
    }

    fn slice_mut<'a>(&'a mut self, range: Range<usize>) -> (r: &'a mut [i32]) {
        let whole = self.as_mut_slice();
        let (front, back) = whole.split_at_mut(range.start);
        let (middle, _rest) = back.split_at_mut(range.end - range.start);
        middle
    }

    fn fill(len: usize, value: i32) -> (r: Self) {
        let mut v: Vec<i32> = Vec::new();
        let mut i: usize = 0;
        while i < len
            invariant
                0 <= i <= len,
                v@ == Seq::new(i as nat, |k: int| value),
            decreases len - i,
        {
            v.push(value);
            i = i + 1;
            assert(v@ =~= Seq::new(i as nat, |k: int| value));
        }
        v
    }

    fn from_iterator(iter: &[i32], len: usize) -> (r: Self) {
        crate::vector::to_vec(vstd::slice::slice_subrange(iter, 0, len))
    }

    fn from_vec_slice(slice: &[i32]) -> (r: Self) {
        crate::vector::to_vec(slice)
    }

    fn from_slice<O: Array<usize> + ?Sized>(slice: &O) -> (r: Self) {
        let v = slice.iterator(0);
        assert(v@ =~= slice.spec_values());
        v
    }
}

} // verus!
