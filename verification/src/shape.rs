//! Shapes of one- and two-dimensional arrays.
//!
//! An array stores its elements in one sequence, ordered as a walk along
//! axis 0 (for a matrix: row after row). A shape says how many elements
//! there are, which positions are inside, where a position sits in that
//! sequence, and in which order a walk along another axis visits them.
use vstd::arithmetic::div_mod::{lemma_fundamental_div_mod, lemma_mod_bound};
use vstd::prelude::*;

verus! {

/// The shape of an array, and the position type that indexes it.
pub trait Shape: Sized {
    /// Number of elements an array of this shape holds.
    spec fn size(self) -> nat;

    /// `pos` lies inside an array of this shape.
    spec fn contains(self, pos: Self) -> bool;

    /// Where `pos` sits in the axis-0 walk of the elements.
    spec fn offset(self, pos: Self) -> int;

    /// `axis` names a walk that arrays of this shape support.
    spec fn valid_axis(self, axis: u8) -> bool;

    /// Where the `k`-th element of a walk along `axis` sits in the axis-0 walk.
    spec fn walk(self, axis: u8, k: int) -> int;

    proof fn lemma_offset(self, pos: Self)
        requires
            self.contains(pos),
        ensures
            0 <= self.offset(pos) < self.size(),
    ;

    proof fn lemma_offset_injective(self, p: Self, q: Self)
        requires
            self.contains(p),
            self.contains(q),
            self.offset(p) == self.offset(q),
        ensures
            p == q,
    ;

    proof fn lemma_walk(self, axis: u8, k: int)
        requires
            self.valid_axis(axis),
            0 <= k < self.size(),
        ensures
            0 <= self.walk(axis, k) < self.size(),
    ;

    /// The number of elements, as a machine integer.
    fn count(self) -> (n: usize)
        requires
            self.size() <= usize::MAX,
        ensures
            n == self.size(),
    ;

    /// The position whose offset is `k`.
    fn pos_at(self, k: usize) -> (pos: Self)
        requires
            k < self.size(),
        ensures
            self.contains(pos),
            self.offset(pos) == k,
    ;
}

/// A one-dimensional shape is its length; positions are indices.
impl Shape for usize {
    open spec fn size(self) -> nat {
        self as nat
    }

    open spec fn contains(self, pos: usize) -> bool {
        pos < self
    }

    open spec fn offset(self, pos: usize) -> int {
        pos as int
    }

    open spec fn valid_axis(self, axis: u8) -> bool {
        axis == 0
    }

    open spec fn walk(self, axis: u8, k: int) -> int {
        k
    }

    proof fn lemma_offset(self, pos: usize) {
    }

    proof fn lemma_offset_injective(self, p: usize, q: usize) {
    }

    proof fn lemma_walk(self, axis: u8, k: int) {
    }

    fn count(self) -> (n: usize) {
        self
    }

    fn pos_at(self, k: usize) -> (pos: usize) {
        k
    }
}

/// Offset of entry `(r, c)` in the row-major order of a matrix with `ncols` columns.
pub open spec fn row_major(r: int, c: int, ncols: int) -> int {
    r * ncols + c
}

/// Offset, in row-major order, of the `k`-th element of a column-major walk
/// over an `nrows` by `ncols` matrix.
pub open spec fn column_walk(k: int, nrows: int, ncols: int) -> int {
    row_major(k % nrows, k / nrows, ncols)
}

/// An entry inside an `nrows` by `ncols` matrix has its row-major offset inside it.
pub proof fn lemma_row_major_bounds(r: int, c: int, nrows: int, ncols: int)
    requires
        0 <= r < nrows,
        0 <= c < ncols,
    ensures
        0 <= row_major(r, c, ncols) < nrows * ncols,
        row_major(r, c, ncols) == r * ncols + c,
{
    assert(0 <= r * ncols + c < nrows * ncols) by (nonlinear_arith)
        requires
            0 <= r < nrows,
            0 <= c < ncols,
    ;
}

/// Splitting an offset into row and column and joining them again gives the offset.
pub proof fn lemma_row_major_split(k: int, nrows: int, ncols: int)
    requires
        0 <= k < nrows * ncols,
        0 <= nrows,
    ensures
        ncols > 0,
        0 <= k / ncols < nrows,
        0 <= k % ncols < ncols,
        row_major(k / ncols, k % ncols, ncols) == k,
{
    if ncols <= 0 {
        assert(nrows * ncols <= 0) by (nonlinear_arith)
            requires
                nrows >= 0,
                ncols <= 0,
        ;
    }
    lemma_fundamental_div_mod(k, ncols);
    lemma_mod_bound(k, ncols);
    let q = k / ncols;
    assert(0 <= q < nrows && q * ncols == ncols * q) by (nonlinear_arith)
        requires
            0 <= k < nrows * ncols,
            ncols > 0,
            k == ncols * q + k % ncols,
            0 <= k % ncols < ncols,
    ;
}

/// The row-major offset determines row and column.
pub proof fn lemma_row_major_unique(r: int, c: int, ncols: int)
    requires
        0 <= c < ncols,
        0 <= r,
    ensures
        row_major(r, c, ncols) / ncols == r,
        row_major(r, c, ncols) % ncols == c,
{
    let k = r * ncols + c;
    lemma_fundamental_div_mod(k, ncols);
    lemma_mod_bound(k, ncols);
    let q = k / ncols;
    let m = k % ncols;
    assert(q == r && m == c) by (nonlinear_arith)
        requires
            k == ncols * q + m,
            k == r * ncols + c,
            0 <= m < ncols,
            0 <= c < ncols,
    ;
}

/// A two-dimensional shape is `(nrows, ncols)`; positions are `(row, column)`.
impl Shape for (usize, usize) {
    open spec fn size(self) -> nat {
        (self.0 * self.1) as nat
    }

    open spec fn contains(self, pos: (usize, usize)) -> bool {
        pos.0 < self.0 && pos.1 < self.1
    }

    open spec fn offset(self, pos: (usize, usize)) -> int {
        row_major(pos.0 as int, pos.1 as int, self.1 as int)
    }

    open spec fn valid_axis(self, axis: u8) -> bool {
        axis == 0 || axis == 1
    }

    open spec fn walk(self, axis: u8, k: int) -> int {
        if axis == 0 {
            k
        } else {
            column_walk(k, self.0 as int, self.1 as int)
        }
    }

    proof fn lemma_offset(self, pos: (usize, usize)) {
        lemma_row_major_bounds(pos.0 as int, pos.1 as int, self.0 as int, self.1 as int);
    }

    proof fn lemma_offset_injective(self, p: (usize, usize), q: (usize, usize)) {
        lemma_row_major_unique(p.0 as int, p.1 as int, self.1 as int);
        lemma_row_major_unique(q.0 as int, q.1 as int, self.1 as int);
    }

    proof fn lemma_walk(self, axis: u8, k: int) {
        if axis != 0 {
            let nr = self.0 as int;
            let nc = self.1 as int;
            assert(nr * nc == nc * nr) by (nonlinear_arith);
            lemma_row_major_split(k, nc, nr);
            lemma_row_major_bounds(k % nr, k / nr, nr, nc);
        }
    }

    fn count(self) -> (n: usize) {
        self.0 * self.1
    }

    fn pos_at(self, k: usize) -> (pos: (usize, usize)) {
        proof {
            lemma_row_major_split(k as int, self.0 as int, self.1 as int);
        }
        (k / self.1, k % self.1)
    }
}

} // verus!
