//! Operations on one-dimensional arrays: reductions that read them and
//! transformations that change them in place.
use crate::array::{well_formed, Array, MutArray};
use crate::num::{abs_int, fits, highest, lowest, signed_abs};
use crate::sorting::{argsort_in_place, rearranged, sort_positions, sorted};
use vstd::prelude::*;

verus! {

/// `a[0] * b[0] + ... + a[k - 1] * b[k - 1]`.
pub open spec fn dot_prefix(a: Seq<i32>, b: Seq<i32>, k: int) -> int
    decreases k,
{
    if k <= 0 {
        0
    } else {
        dot_prefix(a, b, k - 1) + a[k - 1] * b[k - 1]
    }
}

/// `a[0] + ... + a[k - 1]`.
pub open spec fn sum_prefix(a: Seq<i32>, k: int) -> int
    decreases k,
{
    if k <= 0 {
        0
    } else {
        sum_prefix(a, k - 1) + a[k - 1]
    }
}

/// Summing `a` term by term never leaves `i32`.
pub open spec fn sum_fits(a: Seq<i32>) -> bool {
    forall|k: int| 0 <= k <= a.len() ==> fits(#[trigger] sum_prefix(a, k))
}

/// Every product `a[i] * b[i]`, and every partial sum of them, is an `i32`.
pub open spec fn dot_fits(a: Seq<i32>, b: Seq<i32>) -> bool {
    &&& forall|i: int| 0 <= i < a.len() ==> fits(#[trigger] a[i] * b[i])
    &&& forall|k: int| 0 <= k <= a.len() ==> fits(#[trigger] dot_prefix(a, b, k))
}

/// `r` is the largest element of `s`, or `i32::MIN` when `s` is empty.
pub open spec fn is_max_of(s: Seq<i32>, r: i32) -> bool {
    &&& forall|i: int| 0 <= i < s.len() ==> #[trigger] s[i] <= r
    &&& s.len() == 0 ==> r == i32::MIN
    &&& s.len() > 0 ==> exists|i: int| 0 <= i < s.len() && #[trigger] s[i] == r
}

/// `r` is the smallest element of `s`, or `i32::MAX` when `s` is empty.
pub open spec fn is_min_of(s: Seq<i32>, r: i32) -> bool {
    &&& forall|i: int| 0 <= i < s.len() ==> r <= #[trigger] s[i]
    &&& s.len() == 0 ==> r == i32::MAX
    &&& s.len() > 0 ==> exists|i: int| 0 <= i < s.len() && #[trigger] s[i] == r
}

/// `r` is the first position of a largest element of `s`, or `0` when `s` is empty.
pub open spec fn is_first_argmax(s: Seq<i32>, r: int) -> bool {
    &&& s.len() == 0 ==> r == 0
    &&& s.len() > 0 ==> {
        &&& 0 <= r < s.len()
        &&& forall|i: int| 0 <= i < s.len() ==> #[trigger] s[i] <= s[r]
        &&& forall|i: int| 0 <= i < r ==> #[trigger] s[i] < s[r]
    }
}

/// `s` is in strictly ascending order.
pub open spec fn strictly_increasing(s: Seq<i32>) -> bool {
    forall|i: int, j: int| 0 <= i < j < s.len() ==> #[trigger] s[i] < #[trigger] s[j]
}

/// `u` lists the distinct elements of `s` in ascending order.
pub open spec fn is_unique_of(s: Seq<i32>, u: Seq<i32>) -> bool {
    &&& strictly_increasing(u)
    &&& forall|x: i32| #[trigger] u.contains(x) <==> s.contains(x)
}

/// `|a[i] - b[i]|` for every `i`.
pub open spec fn abs_diffs(a: Seq<i32>, b: Seq<i32>) -> Seq<i32> {
    Seq::new(a.len(), |i: int| abs_int(a[i] - b[i]) as i32)
}

/// The elements of `v` in ascending order (a wrapper of `slice::sort`, which
/// sorts in ascending order and keeps every element).
#[verifier::external_body]
fn sort_values(v: &mut Vec<i32>)
    ensures
        final(v)@.to_multiset() == old(v)@.to_multiset(),
        sorted(final(v)@),
{
    v.sort();
}

/// Appending `x` adds `x` to what a sequence contains, and nothing else.
proof fn lemma_push_contains(s: Seq<i32>, x: i32, y: i32)
    ensures
        s.push(x).contains(y) == (s.contains(y) || y == x),
{
    let t = s.push(x);
    if s.contains(y) {
        let k = choose|k: int| 0 <= k < s.len() && s[k] == y;
        assert(t[k] == y);
    }
    if y == x {
        assert(t[s.len() as int] == x);
    }
    if t.contains(y) && y != x {
        let k = choose|k: int| 0 <= k < t.len() && t[k] == y;
        assert(s[k] == y);
    }
}

/// The distinct elements of the ascending sequence `v`, in order.
fn dedup_sorted(v: &Vec<i32>) -> (u: Vec<i32>)
    requires
        sorted(v@),
    ensures
        strictly_increasing(u@),
        forall|x: i32| #[trigger] u@.contains(x) <==> v@.contains(x),
{
    let mut u: Vec<i32> = Vec::new();
    let mut i: usize = 0;
    while i < v.len()
        invariant
            0 <= i <= v@.len(),
            sorted(v@),
            strictly_increasing(u@),
            u@.len() > 0 ==> u@.last() == v@[i - 1],
            i > 0 ==> u@.len() > 0,
            i == 0 ==> u@.len() == 0,
            forall|x: i32| #[trigger] u@.contains(x) <==> v@.subrange(0, i as int).contains(x),
        decreases v@.len() - i,
    {
        let x = v[i];
        let ghost old_u = u@;
        if u.len() == 0 || u[u.len() - 1] != x {
            proof {
                if u@.len() > 0 {
                    assert(v@[i - 1] <= v@[i as int]);
                }
            }
            u.push(x);
            proof {
                assert forall|p: int, q: int| 0 <= p < q < u@.len() implies #[trigger] u@[p] < #[trigger] u@[q] by {
                    if q == u@.len() - 1 {
                        assert(old_u[p] <= old_u.last());
                    }
                }
            }
        }
        proof {
            let pre = v@.subrange(0, i as int);
            let post = v@.subrange(0, i + 1);
            assert(post =~= pre.push(x));
            assert forall|y: i32| #[trigger] u@.contains(y) <==> post.contains(y) by {
                lemma_push_contains(pre, x, y);
                if u@ != old_u {
                    assert(u@ == old_u.push(x));
                    lemma_push_contains(old_u, x, y);
                } else {
                    assert(old_u[old_u.len() - 1] == x);
                    assert(old_u.contains(x));
                }
            }
        }
        i = i + 1;
    }
    proof {
        assert(v@.subrange(0, v@.len() as int) == v@);
    }
    u
}

/// Reductions and searches over a one-dimensional array.
pub trait ArrayView1: Array<usize> {
    /// The dot product with `other`, which has the same length.
    fn dot<O: Array<usize> + ?Sized>(&self, other: &O) -> (r: i32)
        requires
            well_formed(self),
            well_formed(other),
            self.spec_shape() == other.spec_shape(),
            dot_fits(self.spec_values(), other.spec_values()),
        ensures
            r == dot_prefix(self.spec_values(), other.spec_values(), self.spec_values().len() as int),
    {
        let n = self.shape();
        let mut acc: i32 = 0;
        let mut i: usize = 0;
        while i < n
            invariant
                well_formed(self),
                well_formed(other),
                n == self.spec_shape(),
                self.spec_shape() == other.spec_shape(),
                self.spec_values().len() == n,
                dot_fits(self.spec_values(), other.spec_values()),
                0 <= i <= n,
                acc == dot_prefix(self.spec_values(), other.spec_values(), i as int),
            decreases n - i,
        {
            let x = *self.get(i);
            let y = *other.get(i);
            assert(fits(self.spec_values()[i as int] * other.spec_values()[i as int]));
            assert(fits(dot_prefix(self.spec_values(), other.spec_values(), i + 1)));
            acc = acc + x * y;
            i = i + 1;
        }
        acc
    }

    /// The sum of the elements.
    fn sum(&self) -> (r: i32)
        requires
            well_formed(self),
            sum_fits(self.spec_values()),
        ensures
            r == sum_prefix(self.spec_values(), self.spec_values().len() as int),
    {
        let n = self.shape();
        let mut acc: i32 = 0;
        let mut i: usize = 0;
        while i < n
            invariant
                well_formed(self),
                n == self.spec_shape(),
                self.spec_values().len() == n,
                sum_fits(self.spec_values()),
                0 <= i <= n,
                acc == sum_prefix(self.spec_values(), i as int),
            decreases n - i,
        {
            let x = *self.get(i);
            assert(fits(sum_prefix(self.spec_values(), i + 1)));
            acc = acc + x;
            i = i + 1;
        }
        acc
    }

    /// The largest element; `i32::MIN` for an empty array.
    fn max(&self) -> (r: i32)
        requires
            well_formed(self),
        ensures
            is_max_of(self.spec_values(), r),
    {
        let n = self.shape();
        let mut m = lowest();
        let mut i: usize = 0;
        while i < n
            invariant
                well_formed(self),
                n == self.spec_shape(),
                self.spec_values().len() == n,
                0 <= i <= n,
                forall|k: int| 0 <= k < i ==> #[trigger] self.spec_values()[k] <= m,
                i == 0 ==> m == i32::MIN,
                i > 0 ==> exists|k: int| 0 <= k < i && #[trigger] self.spec_values()[k] == m,
            decreases n - i,
        {
            let v = *self.get(i);
            if v > m {
                m = v;
            } else if i == 0 {
                assert(self.spec_values()[0] == m);
            }
            i = i + 1;
        }
        m
    }

    /// The smallest element; `i32::MAX` for an empty array.
    fn min(&self) -> (r: i32)
        requires
            well_formed(self),
        ensures
            is_min_of(self.spec_values(), r),
    {
        let n = self.shape();
        let mut m = highest();
        let mut i: usize = 0;
        while i < n
            invariant
                well_formed(self),
                n == self.spec_shape(),
                self.spec_values().len() == n,
                0 <= i <= n,
                forall|k: int| 0 <= k < i ==> m <= #[trigger] self.spec_values()[k],
                i == 0 ==> m == i32::MAX,
                i > 0 ==> exists|k: int| 0 <= k < i && #[trigger] self.spec_values()[k] == m,
            decreases n - i,
        {
            let v = *self.get(i);
            if v < m {
                m = v;
            } else if i == 0 {
                assert(self.spec_values()[0] == m);
            }
            i = i + 1;
        }
        m
    }

    /// The first position of a largest element; `0` for an empty array.
    fn argmax(&self) -> (r: usize)
        requires
            well_formed(self),
        ensures
            is_first_argmax(self.spec_values(), r as int),
    {
        let n = self.shape();
        let mut m = lowest();
        let mut pos: usize = 0;
        let mut i: usize = 0;
        while i < n
            invariant
                well_formed(self),
                n == self.spec_shape(),
                self.spec_values().len() == n,
                0 <= i <= n,
                forall|k: int| 0 <= k < i ==> #[trigger] self.spec_values()[k] <= m,
                i == 0 ==> m == i32::MIN && pos == 0,
                i > 0 ==> pos < i && self.spec_values()[pos as int] == m,
                i > 0 ==> forall|k: int| 0 <= k < pos ==> #[trigger] self.spec_values()[k] < m,
                i > 0 && pos > 0 ==> i32::MIN < m,
            decreases n - i,
        {
            let v = *self.get(i);
            if v > m {
                m = v;
                pos = i;
            }
            i = i + 1;
        }
        pos
    }

    /// The distinct elements, in ascending order.
    fn unique(&self) -> (u: Vec<i32>)
        requires
            well_formed(self),
        ensures
            is_unique_of(self.spec_values(), u@),
    {
        let mut v = self.iterator(0);
        assert(v@ =~= self.spec_values());
        sort_values(&mut v);
        proof {
            let s = self.spec_values();
            v@.to_multiset_ensures();
            s.to_multiset_ensures();
            assert forall|x: i32| v@.contains(x) <==> s.contains(x) by {
                assert(v@.to_multiset().count(x) == s.to_multiset().count(x));
            }
        }
        dedup_sorted(&v)
    }

    /// The distinct elements in ascending order, and for each element of the
    /// array the position of its value among them.
    fn unique_with_indices(&self) -> (r: (Vec<i32>, Vec<usize>))
        requires
            well_formed(self),
        ensures
            is_unique_of(self.spec_values(), r.0@),
            r.1@.len() == self.spec_values().len(),
            forall|i: int|
                0 <= i < r.1@.len() ==> #[trigger] r.1@[i] < r.0@.len() && r.0@[r.1@[i] as int]
                    == self.spec_values()[i],
    {
        let u = self.unique();
        let n = self.shape();
        let mut idx: Vec<usize> = Vec::new();
        let mut i: usize = 0;
        while i < n
            invariant
                well_formed(self),
                n == self.spec_shape(),
                self.spec_values().len() == n,
                is_unique_of(self.spec_values(), u@),
                0 <= i <= n,
                idx@.len() == i,
                forall|k: int|
                    0 <= k < i ==> #[trigger] idx@[k] < u@.len() && u@[idx@[k] as int]
                        == self.spec_values()[k],
            decreases n - i,
        {
            let x = *self.get(i);
            assert(u@.contains(x));
            let mut p: usize = 0;
            while u[p] != x
                invariant
                    u@.contains(x),
                    u@.len() == u.len(),
                    0 <= p < u@.len(),
                    forall|k: int| 0 <= k < p ==> #[trigger] u@[k] != x,
                decreases u@.len() - p,
            {
                p = p + 1;
                proof {
                    if p == u@.len() {
                        let k = choose|k: int| 0 <= k < u@.len() && u@[k] == x;
                        assert(u@[k] != x);
                    }
                }
            }
            idx.push(p);
            i = i + 1;
        }
        (u, idx)
    }

    /// The largest absolute difference `|self[i] - other[i]|`; `i32::MIN`
    /// for empty arrays.
    fn max_diff<O: Array<usize> + ?Sized>(&self, other: &O) -> (r: i32)
        requires
            well_formed(self),
            well_formed(other),
            self.spec_shape() == other.spec_shape(),
            forall|i: int|
                0 <= i < self.spec_values().len() ==> fits(
                    #[trigger] self.spec_values()[i] - other.spec_values()[i],
                ) && self.spec_values()[i] - other.spec_values()[i] != i32::MIN,
        ensures
            is_max_of(abs_diffs(self.spec_values(), other.spec_values()), r),
    {
        let ghost d = abs_diffs(self.spec_values(), other.spec_values());
        let n = self.shape();
        let mut m = lowest();
        let mut i: usize = 0;
        while i < n
            invariant
                well_formed(self),
                well_formed(other),
                n == self.spec_shape(),
                self.spec_shape() == other.spec_shape(),
                self.spec_values().len() == n,
                d == abs_diffs(self.spec_values(), other.spec_values()),
                forall|k: int|
                    0 <= k < n ==> fits(#[trigger] self.spec_values()[k] - other.spec_values()[k])
                        && self.spec_values()[k] - other.spec_values()[k] != i32::MIN,
                0 <= i <= n,
                forall|k: int| 0 <= k < i ==> #[trigger] d[k] <= m,
                i == 0 ==> m == i32::MIN,
                i > 0 ==> exists|k: int| 0 <= k < i && #[trigger] d[k] == m,
            decreases n - i,
        {
            let x = *self.get(i);
            let y = *other.get(i);
            assert(fits(self.spec_values()[i as int] - other.spec_values()[i as int]));
            let v = signed_abs(x - y);
            assert(d[i as int] == v);
            if v > m {
                m = v;
            } else if i == 0 {
                assert(d[0] == m);
            }
            i = i + 1;
        }
        m
    }
}

/// In-place transformations of a one-dimensional array.
pub trait MutArrayView1: MutArray<usize> + ArrayView1 {
    /// Copies the elements of `other` over the first elements of this array,
    /// as many as the shorter of the two holds.
    fn copy_from<O: Array<usize> + ?Sized>(&mut self, other: &O)
        requires
            well_formed(old(self)),
            well_formed(other),
        ensures
            final(self).spec_shape() == old(self).spec_shape(),
            final(self).spec_values() == Seq::new(
                old(self).spec_values().len(),
                |i: int|
                    if i < other.spec_values().len() {
                        other.spec_values()[i]
                    } else {
                        old(self).spec_values()[i]
                    },
            ),
    {
        let n = self.shape();
        let m = other.shape();
        let k = if n < m {
            n
        } else {
            m
        };
        let ghost v0 = self.spec_values();
        let mut i: usize = 0;
        while i < k
            invariant
                well_formed(self),
                well_formed(other),
                self.spec_shape() == n,
                other.spec_shape() == m,
                v0 == old(self).spec_values(),
                self.spec_values().len() == n,
                k <= n,
                k <= m,
                k == n || k == m,
                0 <= i <= k,
                forall|p: int| 0 <= p < i ==> #[trigger] self.spec_values()[p] == other.spec_values()[p],
                forall|p: int| i <= p < n ==> #[trigger] self.spec_values()[p] == v0[p],
            decreases k - i,
        {
            let x = *other.get(i);
            self.set(i, x);
            i = i + 1;
        }
        assert(self.spec_values() =~= Seq::new(
            v0.len(),
            |i: int|
                if i < other.spec_values().len() {
                    other.spec_values()[i]
                } else {
                    v0[i]
                },
        ));
    }

    /// Replaces every element by its absolute value.
    fn abs_mut(&mut self)
        requires
            well_formed(old(self)),
            forall|i: int| 0 <= i < old(self).spec_values().len() ==> #[trigger] old(self).spec_values()[i] != i32::MIN,
        ensures
            final(self).spec_shape() == old(self).spec_shape(),
            final(self).spec_values() == old(self).spec_values().map_values(
                |v: i32| abs_int(v as int) as i32,
            ),
    {
        let n = self.shape();
        let ghost v0 = self.spec_values();
        let mut i: usize = 0;
        while i < n
            invariant
                well_formed(self),
                self.spec_shape() == n,
                v0 == old(self).spec_values(),
                self.spec_values().len() == n,
                forall|p: int| 0 <= p < n ==> #[trigger] v0[p] != i32::MIN,
                0 <= i <= n,
                forall|p: int| 0 <= p < i ==> #[trigger] self.spec_values()[p] == abs_int(v0[p] as int) as i32,
                forall|p: int| i <= p < n ==> #[trigger] self.spec_values()[p] == v0[p],
            decreases n - i,
        {
            let x = *self.get(i);
            self.set(i, signed_abs(x));
            i = i + 1;
        }
        assert(self.spec_values() =~= v0.map_values(|v: i32| abs_int(v as int) as i32));
    }

    /// Replaces every element by its negation.
    fn neg_mut(&mut self)
        requires
            well_formed(old(self)),
            forall|i: int| 0 <= i < old(self).spec_values().len() ==> #[trigger] old(self).spec_values()[i] != i32::MIN,
        ensures
            final(self).spec_shape() == old(self).spec_shape(),
            final(self).spec_values() == old(self).spec_values().map_values(|v: i32| (-v) as i32),
    {
        let n = self.shape();
        let ghost v0 = self.spec_values();
        let mut i: usize = 0;
        while i < n
            invariant
                well_formed(self),
                self.spec_shape() == n,
                v0 == old(self).spec_values(),
                self.spec_values().len() == n,
                forall|p: int| 0 <= p < n ==> #[trigger] v0[p] != i32::MIN,
                0 <= i <= n,
                forall|p: int| 0 <= p < i ==> #[trigger] self.spec_values()[p] == (-v0[p]) as i32,
                forall|p: int| i <= p < n ==> #[trigger] self.spec_values()[p] == v0[p],
            decreases n - i,
        {
            let x = *self.get(i);
            self.set(i, -x);
            i = i + 1;
        }
        assert(self.spec_values() =~= v0.map_values(|v: i32| (-v) as i32));
    }

    /// Sorts the array in ascending order and returns, for each position, the
    /// position its element held before. Equal elements come out in the order
    /// that the quicksort of `sorting` (median-of-three pivot, insertion on
    /// segments of fewer than eight) leaves them in, which `sort_positions` names;
    /// an array of fewer than eight elements is sorted by insertion alone,
    /// so equal elements keep their order.
    fn argsort_mut(&mut self) -> (index: Vec<usize>)
        requires
            well_formed(old(self)),
            0 < old(self).spec_values().len() <= i32::MAX,
        ensures
            final(self).spec_shape() == old(self).spec_shape(),
            sorted(final(self).spec_values()),
            rearranged(final(self).spec_values(), index@, old(self).spec_values()),
            index@ == sort_positions(old(self).spec_values()),
            old(self).spec_values().len() < 8 ==> forall|p: int, q: int|
                0 <= p < q < index@.len() && old(self).spec_values()[#[trigger] index@[p] as int]
                    == old(self).spec_values()[#[trigger] index@[q] as int] ==> index@[p] < index@[q],
    {
        argsort_in_place(self)
    }
}

impl ArrayView1 for Vec<i32> {

}

impl ArrayView1 for [i32] {

}

impl MutArrayView1 for Vec<i32> {

}

impl MutArrayView1 for [i32] {

}

} // verus!
