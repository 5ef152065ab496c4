//! Vectors and slices of `i32` as one-dimensional arrays.
use crate::array::{walk_values, well_formed, Array, MutArray, Shaped};
use vstd::prelude::*;

verus! {

/// A fresh vector holding the elements of `s`.
pub fn to_vec(s: &[i32]) -> (v: Vec<i32>)
    ensures
        v@ == s@,
{
    let mut v: Vec<i32> = Vec::with_capacity(s.len());
    let mut i: usize = 0;
    while i < s.len()
        invariant
            0 <= i <= s@.len(),
            v@ == s@.subrange(0, i as int),
        decreases s@.len() - i,
    {
        v.push(s[i]);
        i = i + 1;
    }
    assert(v@ =~= s@);
    v
}

impl Shaped<usize> for Vec<i32> {
    open spec fn spec_shape(&self) -> usize {
        self.len()
    }

    open spec fn spec_values(&self) -> Seq<i32> {
        self@
    }
}

impl Array<usize> for Vec<i32> {
    fn get(&self, pos: usize) -> (r: &i32) {
        &self[pos]
    }

    fn shape(&self) -> (s: usize) {
        self.len()
    }

    fn is_empty(&self) -> (b: bool) {
        self.len() == 0
    }

    fn iterator(&self, axis: u8) -> (v: Vec<i32>) {
        let v = to_vec(self.as_slice());
        assert(v@ =~= walk_values(self.spec_shape(), self.spec_values(), axis));
        v
    }
}

impl MutArray<usize> for Vec<i32> {
    fn set(&mut self, pos: usize, x: i32) {
        assert(self.spec_shape() == self@.len());
        self[pos] = x;
        assert(self.spec_shape() == self@.len());
    }
}

impl Shaped<usize> for [i32] {
    open spec fn spec_shape(&self) -> usize {
        self.len()
    }

    open spec fn spec_values(&self) -> Seq<i32> {
        self@
    }
}

impl Array<usize> for [i32] {
    fn get(&self, pos: usize) -> (r: &i32) {
        &self[pos]
    }

    fn shape(&self) -> (s: usize) {
        self.len()
    }

    fn is_empty(&self) -> (b: bool) {
        self.len() == 0
    }

    fn iterator(&self, axis: u8) -> (v: Vec<i32>) {
        let v = to_vec(self);
        assert(v@ =~= walk_values(self.spec_shape(), self.spec_values(), axis));
        v
    }
}

impl MutArray<usize> for [i32] {
    fn set(&mut self, pos: usize, x: i32) {
        assert(self.spec_shape() == self@.len());
        self[pos] = x;
        assert(self.spec_shape() == self@.len());
    }
}

} // verus!
