//! Arrays of `i32` indexed by a shape's positions, and the operations that
//! change them in place.
use crate::num::{div_elem, div_ok, div_trunc, fits};
use crate::shape::Shape;
use vstd::prelude::*;

verus! {


/// The elements of an array of shape `shape` and axis-0 walk `values`, in the
/// order of a walk along `axis`.
pub open spec fn walk_values<S: Shape>(shape: S, values: Seq<i32>, axis: u8) -> Seq<i32> {
    Seq::new(shape.size(), |k: int| values[shape.walk(axis, k)])
}

/// What an array of `i32` of shape `S` holds, seen as mathematics.
pub trait Shaped<S: Shape> {
    /// The array's shape.
    spec fn spec_shape(&self) -> S;

    /// The elements, in the order of a walk along axis 0.
    spec fn spec_values(&self) -> Seq<i32>;
}

/// The stored elements match the shape: one element per position, and no
/// more than a machine integer can count.
pub open spec fn well_formed<S: Shape, A: Shaped<S> + ?Sized>(a: &A) -> bool {
    &&& a.spec_values().len() == a.spec_shape().size()
    &&& a.spec_shape().size() <= usize::MAX
}

/// Read access to an array of `i32` of shape `S`.
pub trait Array<S: Shape>: Shaped<S> {
    /// The element at `pos`.
    fn get(&self, pos: S) -> (r: &i32)
        requires
            well_formed(self),
            self.spec_shape().contains(pos),
        ensures
            *r == self.spec_values()[self.spec_shape().offset(pos)],
    ;

    /// The array's shape.
    fn shape(&self) -> (s: S)
        ensures
            s == self.spec_shape(),
    ;

    /// Whether the array holds no element.
    fn is_empty(&self) -> (b: bool)
        requires
            well_formed(self),
        ensures
            b == (self.spec_values().len() == 0),
    ;

    /// The elements in the order of a walk along `axis`.
    fn iterator(&self, axis: u8) -> (v: Vec<i32>)
        requires
            well_formed(self),
            self.spec_shape().valid_axis(axis),
        ensures
            v@ == walk_values(self.spec_shape(), self.spec_values(), axis),
    ;
}

/// Write access to an array of `i32` of shape `S`.
pub trait MutArray<S: Shape>: Array<S> {
    /// Puts `x` at `pos`.
    fn set(&mut self, pos: S, x: i32)
        requires
            well_formed(old(self)),
            old(self).spec_shape().contains(pos),
        ensures
            final(self).spec_shape() == old(self).spec_shape(),
            final(self).spec_values().len() == old(self).spec_values().len(),
            final(self).spec_values() == old(self).spec_values().update(
                old(self).spec_shape().offset(pos),
                x,
            ),
    ;

    /// Exchanges the elements at `a` and `b`.
    fn swap(&mut self, a: S, b: S)
        where S: Copy
        requires
            well_formed(old(self)),
            old(self).spec_shape().contains(a),
            old(self).spec_shape().contains(b),
        ensures
            final(self).spec_shape() == old(self).spec_shape(),
            final(self).spec_values() == old(self).spec_values().update(
                old(self).spec_shape().offset(a),
                old(self).spec_values()[old(self).spec_shape().offset(b)],
            ).update(
                old(self).spec_shape().offset(b),
                old(self).spec_values()[old(self).spec_shape().offset(a)],
            ),
    {
        proof {
            self.spec_shape().lemma_offset(a);
        }
        let t = *self.get(a);
        let u = *self.get(b);
        self.set(a, u);
        self.set(b, t);
    }

    /// Divides the element at `pos` by `x`.
    fn div_element_mut(&mut self, pos: S, x: i32)
        where S: Copy
        requires
            well_formed(old(self)),
            old(self).spec_shape().contains(pos),
            div_ok(old(self).spec_values()[old(self).spec_shape().offset(pos)], x),
        ensures
            final(self).spec_shape() == old(self).spec_shape(),
            final(self).spec_values() == old(self).spec_values().update(
                old(self).spec_shape().offset(pos),
                div_trunc(old(self).spec_values()[old(self).spec_shape().offset(pos)] as int, x as int) as i32,
            ),
    {
        let v = *self.get(pos);
        self.set(pos, div_elem(v, x));
    }

    /// Multiplies the element at `pos` by `x`.
    fn mul_element_mut(&mut self, pos: S, x: i32)
        where S: Copy
        requires
            well_formed(old(self)),
            old(self).spec_shape().contains(pos),
            fits(old(self).spec_values()[old(self).spec_shape().offset(pos)] * x),
        ensures
            final(self).spec_shape() == old(self).spec_shape(),
            final(self).spec_values() == old(self).spec_values().update(
                old(self).spec_shape().offset(pos),
                (old(self).spec_values()[old(self).spec_shape().offset(pos)] * x) as i32,
            ),
    {
        let v = *self.get(pos);
        self.set(pos, v * x);
    }

    /// Adds `x` to the element at `pos`.
    fn add_element_mut(&mut self, pos: S, x: i32)
        where S: Copy
        requires
            well_formed(old(self)),
            old(self).spec_shape().contains(pos),
            fits(old(self).spec_values()[old(self).spec_shape().offset(pos)] + x),
        ensures
            final(self).spec_shape() == old(self).spec_shape(),
            final(self).spec_values() == old(self).spec_values().update(
                old(self).spec_shape().offset(pos),
                (old(self).spec_values()[old(self).spec_shape().offset(pos)] + x) as i32,
            ),
    {
        let v = *self.get(pos);
        self.set(pos, v + x);
    }

    /// Subtracts `x` from the element at `pos`.
    fn sub_element_mut(&mut self, pos: S, x: i32)
        where S: Copy
        requires
            well_formed(old(self)),
            old(self).spec_shape().contains(pos),
            fits(old(self).spec_values()[old(self).spec_shape().offset(pos)] - x),
        ensures
            final(self).spec_shape() == old(self).spec_shape(),
            final(self).spec_values() == old(self).spec_values().update(
                old(self).spec_shape().offset(pos),
                (old(self).spec_values()[old(self).spec_shape().offset(pos)] - x) as i32,
            ),
    {
        let v = *self.get(pos);
        self.set(pos, v - x);
    }

    /// Subtracts `x` from every element.
    fn sub_scalar_mut(&mut self, x: i32)
        where S: Copy
        requires
            well_formed(old(self)),
            forall|i: int|
                0 <= i < old(self).spec_values().len() ==> fits(
                    #[trigger] old(self).spec_values()[i] - x,
                ),
        ensures
            final(self).spec_shape() == old(self).spec_shape(),
            final(self).spec_values() == old(self).spec_values().map_values(
                |v: i32| (v - x) as i32,
            ),
    {
        let shape = self.shape();
        let n = shape.count();
        let ghost v0 = self.spec_values();
        let mut k: usize = 0;
        while k < n
            invariant
                well_formed(self),
                self.spec_shape() == shape,
                n == shape.size(),
                v0 == old(self).spec_values(),
                self.spec_values().len() == n,
                0 <= k <= n,
                forall|i: int| 0 <= i < n ==> op_ok(ElemOp::Sub, #[trigger] v0[i], x),
                forall|i: int|
                    0 <= i < k ==> #[trigger] self.spec_values()[i] == op_spec(ElemOp::Sub, v0[i], x),
                forall|i: int| k <= i < n ==> #[trigger] self.spec_values()[i] == v0[i],
            decreases n - k,
        {
            let p = shape.pos_at(k);
            let v = *self.get(p);
            self.set(p, op_apply(ElemOp::Sub, v, x));
            k = k + 1;
        }
        assert(self.spec_values() =~= v0.map_values(|v: i32| op_spec(ElemOp::Sub, v, x)));
    }

    /// Adds `x` to every element.
    fn add_scalar_mut(&mut self, x: i32)
        where S: Copy
        requires
            well_formed(old(self)),
            forall|i: int|
                0 <= i < old(self).spec_values().len() ==> fits(
                    #[trigger] old(self).spec_values()[i] + x,
                ),
        ensures
            final(self).spec_shape() == old(self).spec_shape(),
            final(self).spec_values() == old(self).spec_values().map_values(
                |v: i32| (v + x) as i32,
            ),
    {
        let shape = self.shape();
        let n = shape.count();
        let ghost v0 = self.spec_values();
        let mut k: usize = 0;
        while k < n
            invariant
                well_formed(self),
                self.spec_shape() == shape,
                n == shape.size(),
                v0 == old(self).spec_values(),
                self.spec_values().len() == n,
                0 <= k <= n,
                forall|i: int| 0 <= i < n ==> op_ok(ElemOp::Add, #[trigger] v0[i], x),
                forall|i: int|
                    0 <= i < k ==> #[trigger] self.spec_values()[i] == op_spec(ElemOp::Add, v0[i], x),
                forall|i: int| k <= i < n ==> #[trigger] self.spec_values()[i] == v0[i],
            decreases n - k,
        {
            let p = shape.pos_at(k);
            let v = *self.get(p);
            self.set(p, op_apply(ElemOp::Add, v, x));
            k = k + 1;
        }
        assert(self.spec_values() =~= v0.map_values(|v: i32| op_spec(ElemOp::Add, v, x)));
    }

    /// Multiplies every element by `x`.
    fn mul_scalar_mut(&mut self, x: i32)
        where S: Copy
        requires
            well_formed(old(self)),
            forall|i: int|
                0 <= i < old(self).spec_values().len() ==> fits(
                    #[trigger] old(self).spec_values()[i] * x,
                ),
        ensures
            final(self).spec_shape() == old(self).spec_shape(),
            final(self).spec_values() == old(self).spec_values().map_values(
                |v: i32| (v * x) as i32,
            ),
    {
        let shape = self.shape();
        let n = shape.count();
        let ghost v0 = self.spec_values();
        let mut k: usize = 0;
        while k < n
            invariant
                well_formed(self),
                self.spec_shape() == shape,
                n == shape.size(),
                v0 == old(self).spec_values(),
                self.spec_values().len() == n,
                0 <= k <= n,
                forall|i: int| 0 <= i < n ==> op_ok(ElemOp::Mul, #[trigger] v0[i], x),
                forall|i: int|
                    0 <= i < k ==> #[trigger] self.spec_values()[i] == op_spec(ElemOp::Mul, v0[i], x),
                forall|i: int| k <= i < n ==> #[trigger] self.spec_values()[i] == v0[i],
            decreases n - k,
        {
            let p = shape.pos_at(k);
            let v = *self.get(p);
            self.set(p, op_apply(ElemOp::Mul, v, x));
            k = k + 1;
        }
        assert(self.spec_values() =~= v0.map_values(|v: i32| op_spec(ElemOp::Mul, v, x)));
    }

    /// Divides every element by `x`, rounding toward zero.
    fn div_scalar_mut(&mut self, x: i32)
        where S: Copy
        requires
            well_formed(old(self)),
            forall|i: int|
                0 <= i < old(self).spec_values().len() ==> div_ok(
                    #[trigger] old(self).spec_values()[i],
                    x,
                ),
        ensures
            final(self).spec_shape() == old(self).spec_shape(),
            final(self).spec_values() == old(self).spec_values().map_values(
                |v: i32| div_trunc(v as int, x as int) as i32,
            ),
    {
        let shape = self.shape();
        let n = shape.count();
        let ghost v0 = self.spec_values();
        let mut k: usize = 0;
        while k < n
            invariant
                well_formed(self),
                self.spec_shape() == shape,
                n == shape.size(),
                v0 == old(self).spec_values(),
                self.spec_values().len() == n,
                0 <= k <= n,
                forall|i: int| 0 <= i < n ==> op_ok(ElemOp::Div, #[trigger] v0[i], x),
                forall|i: int|
                    0 <= i < k ==> #[trigger] self.spec_values()[i] == op_spec(ElemOp::Div, v0[i], x),
                forall|i: int| k <= i < n ==> #[trigger] self.spec_values()[i] == v0[i],
            decreases n - k,
        {
            let p = shape.pos_at(k);
            let v = *self.get(p);
            self.set(p, op_apply(ElemOp::Div, v, x));
            k = k + 1;
        }
        assert(self.spec_values() =~= v0.map_values(|v: i32| op_spec(ElemOp::Div, v, x)));
    }

    /// Adds `other` to this array, element by element.
    fn add_mut<O: Array<S> + ?Sized>(&mut self, other: &O)
        where S: Copy
        requires
            well_formed(old(self)),
            well_formed(other),
            old(self).spec_shape() == other.spec_shape(),
            forall|i: int|
                0 <= i < old(self).spec_values().len() ==> fits(
                    #[trigger] old(self).spec_values()[i] + other.spec_values()[i],
                ),
        ensures
            final(self).spec_shape() == old(self).spec_shape(),
            final(self).spec_values() == Seq::new(
                old(self).spec_values().len(),
                |i: int| (old(self).spec_values()[i] + other.spec_values()[i]) as i32,
            ),
    {
        let shape = self.shape();
        let n = shape.count();
        let ghost v0 = self.spec_values();
        let mut k: usize = 0;
        while k < n
            invariant
                well_formed(self),
                well_formed(other),
                self.spec_shape() == shape,
                other.spec_shape() == shape,
                n == shape.size(),
                v0 == old(self).spec_values(),
                self.spec_values().len() == n,
                0 <= k <= n,
                forall|i: int| 0 <= i < n ==> op_ok(ElemOp::Add, #[trigger] v0[i], other.spec_values()[i]),
                forall|i: int|
                    0 <= i < k ==> #[trigger] self.spec_values()[i] == op_spec(
                        ElemOp::Add,
                        v0[i],
                        other.spec_values()[i],
                    ),
                forall|i: int| k <= i < n ==> #[trigger] self.spec_values()[i] == v0[i],
            decreases n - k,
        {
            let p = shape.pos_at(k);
            let v = *self.get(p);
            let w = *other.get(p);
            self.set(p, op_apply(ElemOp::Add, v, w));
            k = k + 1;
        }
        assert(self.spec_values() =~= Seq::new(
            v0.len(),
            |i: int| op_spec(ElemOp::Add, v0[i], other.spec_values()[i]),
        ));
    }

    /// Subtracts `other` from this array, element by element.
    fn sub_mut<O: Array<S> + ?Sized>(&mut self, other: &O)
        where S: Copy
        requires
            well_formed(old(self)),
            well_formed(other),
            old(self).spec_shape() == other.spec_shape(),
            forall|i: int|
                0 <= i < old(self).spec_values().len() ==> fits(
                    #[trigger] old(self).spec_values()[i] - other.spec_values()[i],
                ),
        ensures
            final(self).spec_shape() == old(self).spec_shape(),
            final(self).spec_values() == Seq::new(
                old(self).spec_values().len(),
                |i: int| (old(self).spec_values()[i] - other.spec_values()[i]) as i32,
            ),
    {
        let shape = self.shape();
        let n = shape.count();
        let ghost v0 = self.spec_values();
        let mut k: usize = 0;
        while k < n
            invariant
                well_formed(self),
                well_formed(other),
                self.spec_shape() == shape,
                other.spec_shape() == shape,
                n == shape.size(),
                v0 == old(self).spec_values(),
                self.spec_values().len() == n,
                0 <= k <= n,
                forall|i: int| 0 <= i < n ==> op_ok(ElemOp::Sub, #[trigger] v0[i], other.spec_values()[i]),
                forall|i: int|
                    0 <= i < k ==> #[trigger] self.spec_values()[i] == op_spec(
                        ElemOp::Sub,
                        v0[i],
                        other.spec_values()[i],
                    ),
                forall|i: int| k <= i < n ==> #[trigger] self.spec_values()[i] == v0[i],
            decreases n - k,
        {
            let p = shape.pos_at(k);
            let v = *self.get(p);
            let w = *other.get(p);
            self.set(p, op_apply(ElemOp::Sub, v, w));
            k = k + 1;
        }
        assert(self.spec_values() =~= Seq::new(
            v0.len(),
            |i: int| op_spec(ElemOp::Sub, v0[i], other.spec_values()[i]),
        ));
    }

    /// Multiplies this array by `other`, element by element.
    fn mul_mut<O: Array<S> + ?Sized>(&mut self, other: &O)
        where S: Copy
        requires
            well_formed(old(self)),
            well_formed(other),
            old(self).spec_shape() == other.spec_shape(),
            forall|i: int|
                0 <= i < old(self).spec_values().len() ==> fits(
                    #[trigger] old(self).spec_values()[i] * other.spec_values()[i],
                ),
        ensures
            final(self).spec_shape() == old(self).spec_shape(),
            final(self).spec_values() == Seq::new(
                old(self).spec_values().len(),
                |i: int| (old(self).spec_values()[i] * other.spec_values()[i]) as i32,
            ),
    {
        let shape = self.shape();
        let n = shape.count();
        let ghost v0 = self.spec_values();
        let mut k: usize = 0;
        while k < n
            invariant
                well_formed(self),
                well_formed(other),
                self.spec_shape() == shape,
                other.spec_shape() == shape,
                n == shape.size(),
                v0 == old(self).spec_values(),
                self.spec_values().len() == n,
                0 <= k <= n,
                forall|i: int| 0 <= i < n ==> op_ok(ElemOp::Mul, #[trigger] v0[i], other.spec_values()[i]),
                forall|i: int|
                    0 <= i < k ==> #[trigger] self.spec_values()[i] == op_spec(
                        ElemOp::Mul,
                        v0[i],
                        other.spec_values()[i],
                    ),
                forall|i: int| k <= i < n ==> #[trigger] self.spec_values()[i] == v0[i],
            decreases n - k,
        {
            let p = shape.pos_at(k);
            let v = *self.get(p);
            let w = *other.get(p);
            self.set(p, op_apply(ElemOp::Mul, v, w));
            k = k + 1;
        }
        assert(self.spec_values() =~= Seq::new(
            v0.len(),
            |i: int| op_spec(ElemOp::Mul, v0[i], other.spec_values()[i]),
        ));
    }

    /// Divides this array by `other`, element by element, rounding toward zero.
    fn div_mut<O: Array<S> + ?Sized>(&mut self, other: &O)
        where S: Copy
        requires
            well_formed(old(self)),
            well_formed(other),
            old(self).spec_shape() == other.spec_shape(),
            forall|i: int|
                0 <= i < old(self).spec_values().len() ==> div_ok(
                    #[trigger] old(self).spec_values()[i],
                    other.spec_values()[i],
                ),
        ensures
            final(self).spec_shape() == old(self).spec_shape(),
            final(self).spec_values() == Seq::new(
                old(self).spec_values().len(),
                |i: int| div_trunc(old(self).spec_values()[i] as int, other.spec_values()[i] as int) as i32,
            ),
    {
        let shape = self.shape();
        let n = shape.count();
        let ghost v0 = self.spec_values();
        let mut k: usize = 0;
        while k < n
            invariant
                well_formed(self),
                well_formed(other),
                self.spec_shape() == shape,
                other.spec_shape() == shape,
                n == shape.size(),
                v0 == old(self).spec_values(),
                self.spec_values().len() == n,
                0 <= k <= n,
                forall|i: int| 0 <= i < n ==> op_ok(ElemOp::Div, #[trigger] v0[i], other.spec_values()[i]),
                forall|i: int|
                    0 <= i < k ==> #[trigger] self.spec_values()[i] == op_spec(
                        ElemOp::Div,
                        v0[i],
                        other.spec_values()[i],
                    ),
                forall|i: int| k <= i < n ==> #[trigger] self.spec_values()[i] == v0[i],
            decreases n - k,
        {
            let p = shape.pos_at(k);
            let v = *self.get(p);
            let w = *other.get(p);
            self.set(p, op_apply(ElemOp::Div, v, w));
            k = k + 1;
        }
        assert(self.spec_values() =~= Seq::new(
            v0.len(),
            |i: int| op_spec(ElemOp::Div, v0[i], other.spec_values()[i]),
        ));
    }
}

/// An arithmetic operation on two elements.
pub(crate) enum ElemOp {
    Add,
    Sub,
    Mul,
    Div,
}

/// The operation is defined on `a` and `b` in `i32`.
pub(crate) open spec fn op_ok(op: ElemOp, a: i32, b: i32) -> bool {
    match op {
        ElemOp::Add => fits(a + b),
        ElemOp::Sub => fits(a - b),
        ElemOp::Mul => fits(a * b),
        ElemOp::Div => div_ok(a, b),
    }
}

/// The operation's result on `a` and `b`.
pub(crate) open spec fn op_spec(op: ElemOp, a: i32, b: i32) -> i32 {
    match op {
        ElemOp::Add => (a + b) as i32,
        ElemOp::Sub => (a - b) as i32,
        ElemOp::Mul => (a * b) as i32,
        ElemOp::Div => div_trunc(a as int, b as int) as i32,
    }
}

pub(crate) fn op_apply(op: ElemOp, a: i32, b: i32) -> (r: i32)
    requires
        op_ok(op, a, b),
    ensures
        r == op_spec(op, a, b),
{
    match op {
        ElemOp::Add => a + b,
        ElemOp::Sub => a - b,
        ElemOp::Mul => a * b,
        ElemOp::Div => div_elem(a, b),
    }
}

} // verus!
