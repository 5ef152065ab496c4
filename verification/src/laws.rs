//! Properties that relate several operations, or several calls of one.
use crate::array::walk_values;
use crate::array2::{
    all_well_formed,
    col_of,
    concat_walks,
    filled,
    has_shape,
    lemma_column_walk_entry,
    lemma_filled_cols,
    lemma_prefix_push,
    lemma_total_cols_nonneg,
    lemma_total_cols_prefix,
    lemma_total_rows_nonneg,
    lemma_total_rows_prefix,
    merged_stream,
    is_transpose_of,
    op_col,
    op_cols,
    op_row,
    op_rows,
    row_of,
    total_cols,
    total_rows,
};
use crate::array::well_formed;
use crate::matrix::{at, cols_of, rows_of};
use crate::num::{abs_int, div_trunc, fits};
use crate::shape::{column_walk, lemma_row_major_bounds, lemma_row_major_split, lemma_row_major_unique, row_major, Shape};
use crate::sorting::swapped;
use crate::view1::{dot_prefix, is_first_argmax, is_max_of, is_min_of, is_unique_of};
use crate::array::Shaped;
use vstd::arithmetic::div_mod::lemma_div_multiples_vanish;
use vstd::arithmetic::mul::lemma_mul_is_commutative;
use vstd::prelude::*;

verus! {

/// After `x` is written at `pos`, reading `pos` gives `x` and reading any
/// other position gives what it held before.
pub proof fn set_then_get<S: Shape>(shape: S, values: Seq<i32>, pos: S, x: i32, q: S)
    requires
        values.len() == shape.size(),
        shape.contains(pos),
        shape.contains(q),
    ensures
        values.update(shape.offset(pos), x)[shape.offset(q)] == if q == pos {
            x
        } else {
            values[shape.offset(q)]
        },
{
    shape.lemma_offset(pos);
    shape.lemma_offset(q);
    if shape.offset(q) == shape.offset(pos) {
        shape.lemma_offset_injective(pos, q);
    }
}

/// Exchanging the same two positions twice restores the array.
pub proof fn swap_twice(values: Seq<i32>, a: int, b: int)
    requires
        0 <= a < values.len(),
        0 <= b < values.len(),
    ensures
        swapped(swapped(values, a, b), a, b) == values,
{
    assert(swapped(swapped(values, a, b), a, b) =~= values);
}

/// Adding `x` to every element and then subtracting it restores the array.
pub proof fn add_then_sub_scalar(values: Seq<i32>, x: i32)
    requires
        forall|i: int| 0 <= i < values.len() ==> fits(#[trigger] values[i] + x),
    ensures
        values.map_values(|v: i32| (v + x) as i32).map_values(|v: i32| (v - x) as i32) == values,
{
    assert(values.map_values(|v: i32| (v + x) as i32).map_values(|v: i32| (v - x) as i32) =~= values);
}

/// Dividing a product by one of its factors, rounding toward zero, gives the other.
pub proof fn div_of_product(a: int, x: int)
    requires
        x != 0,
    ensures
        div_trunc(a * x, x) == a,
{
    if a > 0 && x > 0 {
        assert(a * x > 0 && a * x == x * a) by (nonlinear_arith)
            requires
                a > 0,
                x > 0,
        ;
        lemma_div_multiples_vanish(a, x);
    } else if a < 0 && x < 0 {
        assert(a * x > 0 && a * x == (-x) * (-a)) by (nonlinear_arith)
            requires
                a < 0,
                x < 0,
        ;
        lemma_div_multiples_vanish(-a, -x);
    } else if a < 0 && x > 0 {
        assert(a * x < 0 && -(a * x) == x * (-a)) by (nonlinear_arith)
            requires
                a < 0,
                x > 0,
        ;
        lemma_div_multiples_vanish(-a, x);
    } else if a > 0 && x < 0 {
        assert(a * x < 0 && -(a * x) == (-x) * a) by (nonlinear_arith)
            requires
                a > 0,
                x < 0,
        ;
        lemma_div_multiples_vanish(a, -x);
    } else {
        assert(a * x == 0) by (nonlinear_arith)
            requires
                a == 0,
        ;
    }
}

/// Multiplying every element by a nonzero `x` and then dividing by `x`
/// restores the array.
pub proof fn mul_then_div_scalar(values: Seq<i32>, x: i32)
    requires
        x != 0,
        forall|i: int| 0 <= i < values.len() ==> fits(#[trigger] values[i] * x),
    ensures
        values.map_values(|v: i32| (v * x) as i32).map_values(
            |v: i32| div_trunc(v as int, x as int) as i32,
        ) == values,
{
    let prod = values.map_values(|v: i32| (v * x) as i32);
    assert forall|i: int| 0 <= i < values.len() implies #[trigger] div_trunc(prod[i] as int, x as int) as i32 == values[i] by {
        assert(fits(values[i] * x));
        div_of_product(values[i] as int, x as int);
    }
    assert(prod.map_values(|v: i32| div_trunc(v as int, x as int) as i32) =~= values);
}

/// Negating every element twice restores the array.
pub proof fn neg_twice(values: Seq<i32>)
    requires
        forall|i: int| 0 <= i < values.len() ==> #[trigger] values[i] != i32::MIN,
    ensures
        values.map_values(|v: i32| (-v) as i32).map_values(|v: i32| (-v) as i32) == values,
{
    assert(values.map_values(|v: i32| (-v) as i32).map_values(|v: i32| (-v) as i32) =~= values);
}

/// Taking absolute values a second time changes nothing.
pub proof fn abs_twice(values: Seq<i32>)
    requires
        forall|i: int| 0 <= i < values.len() ==> #[trigger] values[i] != i32::MIN,
    ensures
        values.map_values(|v: i32| abs_int(v as int) as i32).map_values(|v: i32| abs_int(v as int) as i32)
            == values.map_values(|v: i32| abs_int(v as int) as i32),
{
    assert(values.map_values(|v: i32| abs_int(v as int) as i32).map_values(|v: i32| abs_int(v as int) as i32)
        =~= values.map_values(|v: i32| abs_int(v as int) as i32));
}

/// The dot product does not depend on the order of its two arguments.
pub proof fn dot_commutes(a: Seq<i32>, b: Seq<i32>, k: int)
    ensures
        dot_prefix(a, b, k) == dot_prefix(b, a, k),
    decreases k,
{
    if k > 0 {
        dot_commutes(a, b, k - 1);
        lemma_mul_is_commutative(a[k - 1] as int, b[k - 1] as int);
    }
}

/// Copying an array of the same length over another makes them equal.
pub proof fn copy_from_same_length(values: Seq<i32>, other: Seq<i32>)
    requires
        values.len() == other.len(),
    ensures
        Seq::new(values.len(), |i: int| if i < other.len() { other[i] } else { values[i] }) == other,
{
    assert(Seq::new(values.len(), |i: int| if i < other.len() { other[i] } else { values[i] }) =~= other);
}

/// A first position of a largest element holds the largest element.
pub proof fn argmax_holds_max(s: Seq<i32>, i: int, m: i32)
    requires
        s.len() > 0,
        is_first_argmax(s, i),
        is_max_of(s, m),
    ensures
        s[i] == m,
{
    let k = choose|k: int| 0 <= k < s.len() && s[k] == m;
    assert(s[k] <= s[i]);
}

/// In a nonempty array the smallest element is no larger than the largest.
pub proof fn min_at_most_max(s: Seq<i32>, lo: i32, hi: i32)
    requires
        s.len() > 0,
        is_min_of(s, lo),
        is_max_of(s, hi),
    ensures
        lo <= hi,
{
    assert(lo <= s[0] && s[0] <= hi);
}

/// Filling a matrix row after row from elements in row-major order keeps them in order.
pub proof fn fill_rows_keeps_order(values: Seq<i32>, nrows: int, ncols: int)
    requires
        nrows * ncols == values.len(),
    ensures
        filled(values, nrows, ncols, 0) == values,
{
    assert(filled(values, nrows, ncols, 0) =~= values);
}

/// Walking a filled matrix along the axis it was filled along gives back
/// the elements it was filled from.
pub proof fn fill_then_walk(src: Seq<i32>, nrows: usize, ncols: usize, axis: u8)
    requires
        axis == 0 || axis == 1,
        nrows * ncols <= src.len(),
    ensures
        walk_values((nrows, ncols), filled(src, nrows as int, ncols as int, axis), axis) == src.subrange(
            0,
            nrows * ncols,
        ),
{
    let nr = nrows as int;
    let nc = ncols as int;
    let f = filled(src, nr, nc, axis);
    let w = walk_values((nrows, ncols), f, axis);
    assert forall|k: int| 0 <= k < nr * nc implies #[trigger] w[k] == src[k] by {
        if axis == 1 {
            assert(nr * nc == nc * nr) by (nonlinear_arith);
            lemma_row_major_split(k, nc, nr);
            let idx = column_walk(k, nr, nc);
            lemma_row_major_bounds(k % nr, k / nr, nr, nc);
            lemma_row_major_unique(k % nr, k / nr, nc);
            assert(idx % nc == k / nr && idx / nc == k % nr);
            assert(row_major(k / nr, k % nr, nr) == k);
        }
    }
    assert(w =~= src.subrange(0, nr * nc));
}

/// Transposing twice gives back the matrix.
pub proof fn transpose_twice<A: Shaped<(usize, usize)> + ?Sized, B: Shaped<(usize, usize)> + ?Sized, C: Shaped<(usize, usize)> + ?Sized>(
    m: &A,
    t: &B,
    tt: &C,
)
    requires
        has_shape(m, rows_of(m), cols_of(m)),
        is_transpose_of(t, m),
        is_transpose_of(tt, t),
    ensures
        tt.spec_shape() == m.spec_shape(),
        tt.spec_values() == m.spec_values(),
{
    let nr = rows_of(m);
    let nc = cols_of(m);
    assert forall|k: int| 0 <= k < nr * nc implies #[trigger] tt.spec_values()[k] == m.spec_values()[k] by {
        lemma_row_major_split(k, nr, nc);
        let r = k / nc;
        let c = k % nc;
        assert(at(tt, r, c) == at(t, c, r));
        assert(at(t, c, r) == at(m, r, c));
    }
    assert(tt.spec_values() =~= m.spec_values());
}

/// `ab` multiplies what `matmul` multiplies once each operand read transposed
/// is replaced by its transpose: with `x` standing for `a`, or for its
/// transpose `ta` when `a_transpose`, and `y` for `b`, or for its transpose
/// `tb` when `b_transpose`, the shapes and every entry of the product, as the
/// contract of `ab` states them, are those of the product of `x` by `y` as the
/// contract of `matmul` states them.
pub proof fn ab_is_matmul_of_transposes<A: Shaped<(usize, usize)> + ?Sized, B: Shaped<(usize, usize)> + ?Sized>(
    a: &A,
    ta: &A,
    b: &B,
    tb: &B,
    a_transpose: bool,
    b_transpose: bool,
)
    requires
        well_formed(a),
        well_formed(b),
        is_transpose_of(ta, a),
        is_transpose_of(tb, b),
    ensures
        ({
            let x = if a_transpose { ta } else { a };
            let y = if b_transpose { tb } else { b };
            &&& op_rows(a, a_transpose) == rows_of(x)
            &&& op_cols(a, a_transpose) == cols_of(x)
            &&& op_rows(b, b_transpose) == rows_of(y)
            &&& op_cols(b, b_transpose) == cols_of(y)
            &&& forall|r: int, c: int|
                0 <= r < rows_of(x) && 0 <= c < cols_of(y) ==> #[trigger] dot_prefix(
                    op_row(a, a_transpose, r),
                    op_col(b, b_transpose, c),
                    op_cols(a, a_transpose),
                ) == dot_prefix(row_of(x, r), col_of(y, c), cols_of(x))
        }),
{
    let x = if a_transpose { ta } else { a };
    let y = if b_transpose { tb } else { b };
    assert forall|r: int, c: int|
        0 <= r < rows_of(x) && 0 <= c < cols_of(y) implies #[trigger] dot_prefix(
        op_row(a, a_transpose, r),
        op_col(b, b_transpose, c),
        op_cols(a, a_transpose),
    ) == dot_prefix(row_of(x, r), col_of(y, c), cols_of(x)) by {
        assert(op_row(a, a_transpose, r) =~= row_of(x, r));
        assert(op_col(b, b_transpose, c) =~= col_of(y, c));
    }
}

/// Stacking `b` below `a` gives what concatenating the pair along axis 0
/// gives: for the pair, `concatenate_2d` states as many rows as `v_stack`
/// states, and at each entry the element that `v_stack` states there.
pub proof fn v_stack_is_concatenation<A: Shaped<(usize, usize)> + ?Sized>(a: &A, b: &A)
    requires
        well_formed(a),
        well_formed(b),
        cols_of(a) == cols_of(b),
    ensures
        total_rows(seq![a, b]) == rows_of(a) + rows_of(b),
        ({
            let w = concat_walks(seq![a, b], 0);
            forall|r: int, c: int|
                0 <= r < rows_of(a) + rows_of(b) && 0 <= c < cols_of(a) ==> w[#[trigger] row_major(r, c, cols_of(a))]
                    == if r < rows_of(a) {
                    at(a, r, c)
                } else {
                    at(b, r - rows_of(a), c)
                }
        }),
{
    let pair = seq![a, b];
    let nc = cols_of(a);
    let ra = rows_of(a);
    let wa = walk_values(a.spec_shape(), a.spec_values(), 0);
    let wb = walk_values(b.spec_shape(), b.spec_values(), 0);
    assert(wa =~= a.spec_values());
    assert(wb =~= b.spec_values());
    let single = seq![a];
    assert(pair.len() == 2 && pair.last() == b);
    assert(single.len() == 1 && single.last() == a);
    assert(pair.drop_last() =~= single);
    assert(single.drop_last() =~= Seq::<&A>::empty());
    assert(concat_walks(Seq::<&A>::empty(), 0) =~= Seq::<i32>::empty());
    assert(concat_walks(single, 0) =~= wa);
    assert(concat_walks(pair, 0) =~= wa + wb);
    assert(total_rows(Seq::<&A>::empty()) == 0);
    assert(total_rows(single) == ra);
    assert(total_rows(pair) == ra + rows_of(b));
    assert forall|r: int, c: int|
        0 <= r < ra + rows_of(b) && 0 <= c < nc implies concat_walks(pair, 0)[#[trigger] row_major(r, c, nc)]
        == if r < ra {
        at(a, r, c)
    } else {
        at(b, r - ra, c)
    } by {
        lemma_row_major_bounds(r, c, ra + rows_of(b), nc);
        if r < ra {
            lemma_row_major_bounds(r, c, ra, nc);
        } else {
            lemma_row_major_bounds(r - ra, c, rows_of(b), nc);
            assert(r * nc + c - ra * nc == (r - ra) * nc + c) by (nonlinear_arith);
        }
    }
}

/// Putting `b` to the right of `a` gives what concatenating the pair along
/// axis 1 gives: for the pair, `concatenate_2d` states as many columns as
/// `h_stack` states, and at each entry the element that `h_stack` states there.
pub proof fn h_stack_is_concatenation<A: Shaped<(usize, usize)> + ?Sized>(a: &A, b: &A)
    requires
        well_formed(a),
        well_formed(b),
        rows_of(a) == rows_of(b),
    ensures
        total_cols(seq![a, b]) == cols_of(a) + cols_of(b),
        ({
            let f = filled(concat_walks(seq![a, b], 1), rows_of(a), cols_of(a) + cols_of(b), 1);
            forall|r: int, c: int|
                0 <= r < rows_of(a) && 0 <= c < cols_of(a) + cols_of(b) ==> f[#[trigger] row_major(
                    r,
                    c,
                    cols_of(a) + cols_of(b),
                )] == if c < cols_of(a) {
                    at(a, r, c)
                } else {
                    at(b, r, c - cols_of(a))
                }
        }),
{
    let pair = seq![a, b];
    let single = seq![a];
    let nr = rows_of(a);
    let ca = cols_of(a);
    let cb = cols_of(b);
    let wa = walk_values(a.spec_shape(), a.spec_values(), 1);
    let wb = walk_values(b.spec_shape(), b.spec_values(), 1);
    assert(pair.len() == 2 && pair.last() == b);
    assert(single.len() == 1 && single.last() == a);
    assert(pair.drop_last() =~= single);
    assert(single.drop_last() =~= Seq::<&A>::empty());
    assert(concat_walks(Seq::<&A>::empty(), 1) =~= Seq::<i32>::empty());
    assert(concat_walks(single, 1) =~= wa);
    assert(concat_walks(pair, 1) =~= wa + wb);
    assert(total_cols(Seq::<&A>::empty()) == 0);
    assert(total_cols(single) == ca);
    assert(total_cols(pair) == ca + cb);
    let src = concat_walks(pair, 1);
    assert forall|r: int, c: int|
        0 <= r < nr && 0 <= c < ca + cb implies filled(src, nr, ca + cb, 1)[#[trigger] row_major(r, c, ca + cb)]
        == if c < ca {
        at(a, r, c)
    } else {
        at(b, r, c - ca)
    } by {
        lemma_filled_cols(src, nr, ca + cb, r, c);
        if c < ca {
            lemma_column_walk_entry(r, c, nr, ca);
            assert(wa.len() == nr * ca);
        } else {
            lemma_column_walk_entry(r, c - ca, nr, cb);
            lemma_row_major_bounds(c - ca, r, cb, nr);
            assert(wa.len() == nr * ca);
            assert(nr * ca == ca * nr) by (nonlinear_arith);
            assert(c * nr + r - ca * nr == (c - ca) * nr + r) by (nonlinear_arith);
        }
    }
}

/// The distinct elements of an array in ascending order are determined by the
/// array: any two sequences that both list them, as `unique` and
/// `unique_with_indices` state their results, are equal.
pub proof fn unique_is_determined(s: Seq<i32>, u1: Seq<i32>, u2: Seq<i32>)
    requires
        is_unique_of(s, u1),
        is_unique_of(s, u2),
    ensures
        u1 == u2,
{
    lemma_increasing_same_elements(u1, u2, 0);
    lemma_increasing_same_elements(u2, u1, 0);
    assert(u1 =~= u2);
}

/// Two strictly increasing sequences with the same elements that agree
/// before position `k` agree at every position of `u1`, and `u2` is no shorter.
proof fn lemma_increasing_same_elements(u1: Seq<i32>, u2: Seq<i32>, k: int)
    requires
        0 <= k <= u1.len(),
        k <= u2.len(),
        forall|i: int, j: int| 0 <= i < j < u1.len() ==> #[trigger] u1[i] < #[trigger] u1[j],
        forall|i: int, j: int| 0 <= i < j < u2.len() ==> #[trigger] u2[i] < #[trigger] u2[j],
        forall|x: i32| #[trigger] u1.contains(x) <==> u2.contains(x),
        forall|p: int| 0 <= p < k ==> #[trigger] u1[p] == u2[p],
    ensures
        u1.len() <= u2.len(),
        forall|p: int| 0 <= p < u1.len() ==> #[trigger] u1[p] == u2[p],
    decreases u1.len() - k,
{
    if k < u1.len() {
        assert(u1.contains(u1[k]));
        let m = choose|m: int| 0 <= m < u2.len() && u2[m] == u1[k];
        if m < k {
            assert(u1[m] == u2[m]);
            assert(u1[m] < u1[k]);
            assert(false);
        }
        assert(k < u2.len());
        assert(u2.contains(u2[k]));
        assert(u1.contains(u2[k]));
        let m2 = choose|m2: int| 0 <= m2 < u1.len() && u1[m2] == u2[k];
        if m2 < k {
            assert(u1[m2] == u2[m2]);
            assert(u2[m2] < u2[k]);
            assert(false);
        }
        if u1[k] < u2[k] {
            if m > k {
                assert(u2[k] < u2[m]);
            }
            assert(false);
        }
        if u2[k] < u1[k] {
            if m2 > k {
                assert(u1[k] < u1[m2]);
            }
            assert(false);
        }
        lemma_increasing_same_elements(u1, u2, k + 1);
    }
}

/// The elements of one-dimensional arrays of `n` elements each, one array
/// after another: element `c` of array `t` comes at `t * n + c`.
proof fn lemma_concat_equal_lengths<B: Shaped<usize> + ?Sized>(arrays: Seq<&B>, n: int)
    requires
        n >= 0,
        all_well_formed(arrays),
        forall|t: int| 0 <= t < arrays.len() ==> (#[trigger] arrays[t]).spec_values().len() == n,
    ensures
        concat_walks(arrays, 0).len() == arrays.len() * n,
        forall|t: int, c: int|
            0 <= t < arrays.len() && 0 <= c < n ==> concat_walks(arrays, 0)[#[trigger] row_major(t, c, n)]
                == arrays[t].spec_values()[c],
    decreases arrays.len(),
{
    if arrays.len() > 0 {
        let k = arrays.len() - 1;
        let rest = arrays.drop_last();
        assert forall|t: int| 0 <= t < rest.len() implies well_formed(#[trigger] rest[t]) by {
            assert(rest[t] == arrays[t]);
            assert(well_formed(arrays[t]));
        }
        assert forall|t: int| 0 <= t < rest.len() implies (#[trigger] rest[t]).spec_values().len() == n by {
            assert(rest[t] == arrays[t]);
        }
        lemma_concat_equal_lengths(rest, n);
        let last = arrays.last();
        assert(well_formed(arrays[k]));
        let w = walk_values(last.spec_shape(), last.spec_values(), 0);
        assert(w =~= last.spec_values());
        assert(concat_walks(arrays, 0) == concat_walks(rest, 0) + w);
        assert(k * n + n == arrays.len() * n) by (nonlinear_arith)
            requires
                k == arrays.len() - 1,
        ;
        assert forall|t: int, c: int|
            0 <= t < arrays.len() && 0 <= c < n implies concat_walks(arrays, 0)[#[trigger] row_major(t, c, n)]
            == arrays[t].spec_values()[c] by {
            if t < k {
                lemma_row_major_bounds(t, c, k, n);
                assert(rest[t] == arrays[t]);
                assert(concat_walks(rest, 0)[row_major(t, c, n)] == rest[t].spec_values()[c]);
            } else {
                assert(row_major(t, c, n) - k * n == c) by (nonlinear_arith)
                    requires
                        t == k,
                        row_major(t, c, n) == t * n + c,
                ;
            }
        }
    }
}

/// `merge_1d` adds each of `arrays`, whose length is that of the lines it
/// joins, as one whole row (axis 0) or column (axis 1): after the matrix's
/// own when `append`, before them otherwise. Entry `(r, c)` of the result, as
/// the contract of `merge_1d` states it, is the matching entry of the matrix
/// or element of one of the arrays.
pub proof fn merge_1d_by_lines<A: Shaped<(usize, usize)> + ?Sized, B: Shaped<usize> + ?Sized>(
    m: &A,
    arrays: Seq<&B>,
    axis: u8,
    append: bool,
)
    requires
        well_formed(m),
        axis == 0 || axis == 1,
        all_well_formed(arrays),
        forall|t: int|
            0 <= t < arrays.len() ==> (#[trigger] arrays[t]).spec_values().len() == if axis == 0 {
                cols_of(m)
            } else {
                rows_of(m)
            },
    ensures
        axis == 0 ==> ({
            let f = filled(merged_stream(m, arrays, 0, append), rows_of(m) + arrays.len(), cols_of(m), 0);
            forall|r: int, c: int|
                0 <= r < rows_of(m) + arrays.len() && 0 <= c < cols_of(m) ==> f[#[trigger] row_major(
                    r,
                    c,
                    cols_of(m),
                )] == if append {
                    if r < rows_of(m) {
                        at(m, r, c)
                    } else {
                        arrays[r - rows_of(m)].spec_values()[c]
                    }
                } else {
                    if r < arrays.len() {
                        arrays[r].spec_values()[c]
                    } else {
                        at(m, r - arrays.len(), c)
                    }
                }
        }),
        axis == 1 ==> ({
            let f = filled(merged_stream(m, arrays, 1, append), rows_of(m), cols_of(m) + arrays.len(), 1);
            forall|r: int, c: int|
                0 <= r < rows_of(m) && 0 <= c < cols_of(m) + arrays.len() ==> f[#[trigger] row_major(
                    r,
                    c,
                    cols_of(m) + arrays.len(),
                )] == if append {
                    if c < cols_of(m) {
                        at(m, r, c)
                    } else {
                        arrays[c - cols_of(m)].spec_values()[r]
                    }
                } else {
                    if c < arrays.len() {
                        arrays[c].spec_values()[r]
                    } else {
                        at(m, r, c - arrays.len())
                    }
                }
        }),
{
    let nr = rows_of(m);
    let nc = cols_of(m);
    let k = arrays.len() as int;
    let own = walk_values(m.spec_shape(), m.spec_values(), axis);
    let others = concat_walks(arrays, 0);
    if axis == 0 {
        lemma_concat_equal_lengths(arrays, nc);
        assert(own =~= m.spec_values());
        let src = merged_stream(m, arrays, 0, append);
        assert forall|r: int, c: int| 0 <= r < nr + k && 0 <= c < nc implies filled(src, nr + k, nc, 0)[#[trigger] row_major(
            r,
            c,
            nc,
        )] == if append {
            if r < nr {
                at(m, r, c)
            } else {
                arrays[r - nr].spec_values()[c]
            }
        } else {
            if r < k {
                arrays[r].spec_values()[c]
            } else {
                at(m, r - k, c)
            }
        } by {
            lemma_row_major_bounds(r, c, nr + k, nc);
            if append {
                if r < nr {
                    lemma_row_major_bounds(r, c, nr, nc);
                } else {
                    lemma_row_major_bounds(r - nr, c, k, nc);
                    assert(row_major(r, c, nc) - nr * nc == row_major(r - nr, c, nc)) by (nonlinear_arith)
                        requires
                            row_major(r, c, nc) == r * nc + c,
                            row_major(r - nr, c, nc) == (r - nr) * nc + c,
                    ;
                }
            } else {
                if r < k {
                    lemma_row_major_bounds(r, c, k, nc);
                } else {
                    lemma_row_major_bounds(r - k, c, nr, nc);
                    assert(row_major(r, c, nc) - k * nc == row_major(r - k, c, nc)) by (nonlinear_arith)
                        requires
                            row_major(r, c, nc) == r * nc + c,
                            row_major(r - k, c, nc) == (r - k) * nc + c,
                    ;
                }
            }
        }
    } else {
        lemma_concat_equal_lengths(arrays, nr);
        let src = merged_stream(m, arrays, 1, append);
        assert(own.len() == nc * nr) by (nonlinear_arith)
            requires
                own.len() == nr * nc,
        ;
        assert forall|r: int, c: int| 0 <= r < nr && 0 <= c < nc + k implies filled(src, nr, nc + k, 1)[#[trigger] row_major(
            r,
            c,
            nc + k,
        )] == if append {
            if c < nc {
                at(m, r, c)
            } else {
                arrays[c - nc].spec_values()[r]
            }
        } else {
            if c < k {
                arrays[c].spec_values()[r]
            } else {
                at(m, r, c - k)
            }
        } by {
            lemma_filled_cols(src, nr, nc + k, r, c);
            lemma_row_major_bounds(c, r, nc + k, nr);
            if append {
                if c < nc {
                    lemma_column_walk_entry(r, c, nr, nc);
                } else {
                    lemma_row_major_bounds(c - nc, r, k, nr);
                    assert(row_major(c, r, nr) - nc * nr == row_major(c - nc, r, nr)) by (nonlinear_arith)
                        requires
                            row_major(c, r, nr) == c * nr + r,
                            row_major(c - nc, r, nr) == (c - nc) * nr + r,
                    ;
                }
            } else {
                if c < k {
                    lemma_row_major_bounds(c, r, k, nr);
                } else {
                    lemma_column_walk_entry(r, c - k, nr, nc);
                    assert(row_major(c, r, nr) - k * nr == row_major(c - k, r, nr)) by (nonlinear_arith)
                        requires
                            row_major(c, r, nr) == c * nr + r,
                            row_major(c - k, r, nr) == (c - k) * nr + r,
                    ;
                }
            }
        }
    }
}

/// The elements of matrices of `nc` columns each, walked row after row one
/// matrix after another: entry `(r, c)` of matrix `t` comes in row
/// `r` plus the rows of the matrices before it.
proof fn lemma_concat_rows<A: Shaped<(usize, usize)> + ?Sized>(arrays: Seq<&A>, nc: int)
    requires
        nc >= 0,
        all_well_formed(arrays),
        forall|t: int| 0 <= t < arrays.len() ==> cols_of(#[trigger] arrays[t]) == nc,
    ensures
        concat_walks(arrays, 0).len() == total_rows(arrays) * nc,
        forall|t: int, r: int, c: int|
            0 <= t < arrays.len() && 0 <= r < rows_of(arrays[t]) && 0 <= c < nc ==> concat_walks(arrays, 0)[row_major(
                total_rows(arrays.subrange(0, t)) + r,
                c,
                nc,
            )] == #[trigger] at(arrays[t], r, c),
    decreases arrays.len(),
{
    if arrays.len() > 0 {
        let k = arrays.len() - 1;
        let rest = arrays.drop_last();
        assert forall|t: int| 0 <= t < rest.len() implies well_formed(#[trigger] rest[t]) && cols_of(rest[t]) == nc by {
            assert(rest[t] == arrays[t]);
            assert(well_formed(arrays[t]));
        }
        lemma_concat_rows(rest, nc);
        lemma_total_rows_nonneg(rest);
        let last = arrays.last();
        assert(well_formed(arrays[k]));
        let w = walk_values(last.spec_shape(), last.spec_values(), 0);
        assert(w =~= last.spec_values());
        assert(concat_walks(arrays, 0) == concat_walks(rest, 0) + w);
        assert(total_rows(arrays) == total_rows(rest) + rows_of(last));
        let tr = total_rows(rest);
        assert(tr * nc + rows_of(last) * nc == total_rows(arrays) * nc) by (nonlinear_arith)
            requires
                total_rows(arrays) == tr + rows_of(last),
        ;
        assert forall|t: int, r: int, c: int|
            0 <= t < arrays.len() && 0 <= r < rows_of(arrays[t]) && 0 <= c < nc implies concat_walks(arrays, 0)[row_major(
            total_rows(arrays.subrange(0, t)) + r,
            c,
            nc,
        )] == #[trigger] at(arrays[t], r, c) by {
            if t < k {
                assert(arrays.subrange(0, t) =~= rest.subrange(0, t));
                assert(rest[t] == arrays[t]);
                lemma_total_rows_prefix(rest, t + 1);
                lemma_total_rows_prefix(rest, t);
                lemma_prefix_push(rest, t);
                let pre = total_rows(rest.subrange(0, t));
                assert(total_rows(rest.subrange(0, t + 1)) == pre + rows_of(rest[t]));
                lemma_row_major_bounds(pre + r, c, tr, nc);
                assert(concat_walks(rest, 0)[row_major(pre + r, c, nc)] == at(rest[t], r, c));
            } else {
                assert(arrays.subrange(0, t) =~= rest);
                lemma_row_major_bounds(r, c, rows_of(last), nc);
                assert(row_major(tr + r, c, nc) - tr * nc == row_major(r, c, nc)) by (nonlinear_arith);
            }
        }
    }
}

/// The elements of matrices of `nr` rows each, walked column after column
/// one matrix after another: entry `(r, c)` of matrix `t` comes in column
/// `c` plus the columns of the matrices before it.
proof fn lemma_concat_cols<A: Shaped<(usize, usize)> + ?Sized>(arrays: Seq<&A>, nr: int)
    requires
        nr >= 0,
        all_well_formed(arrays),
        forall|t: int| 0 <= t < arrays.len() ==> rows_of(#[trigger] arrays[t]) == nr,
    ensures
        concat_walks(arrays, 1).len() == total_cols(arrays) * nr,
        forall|t: int, r: int, c: int|
            0 <= t < arrays.len() && 0 <= r < nr && 0 <= c < cols_of(arrays[t]) ==> concat_walks(arrays, 1)[row_major(
                total_cols(arrays.subrange(0, t)) + c,
                r,
                nr,
            )] == #[trigger] at(arrays[t], r, c),
    decreases arrays.len(),
{
    if arrays.len() > 0 {
        let k = arrays.len() - 1;
        let rest = arrays.drop_last();
        assert forall|t: int| 0 <= t < rest.len() implies well_formed(#[trigger] rest[t]) && rows_of(rest[t]) == nr by {
            assert(rest[t] == arrays[t]);
            assert(well_formed(arrays[t]));
        }
        lemma_concat_cols(rest, nr);
        lemma_total_cols_nonneg(rest);
        let last = arrays.last();
        assert(well_formed(arrays[k]));
        let w = walk_values(last.spec_shape(), last.spec_values(), 1);
        assert(concat_walks(arrays, 1) == concat_walks(rest, 1) + w);
        assert(total_cols(arrays) == total_cols(rest) + cols_of(last));
        let tc = total_cols(rest);
        assert(w.len() == cols_of(last) * nr) by (nonlinear_arith)
            requires
                w.len() == nr * cols_of(last),
        ;
        assert(tc * nr + cols_of(last) * nr == total_cols(arrays) * nr) by (nonlinear_arith)
            requires
                total_cols(arrays) == tc + cols_of(last),
        ;
        assert forall|t: int, r: int, c: int|
            0 <= t < arrays.len() && 0 <= r < nr && 0 <= c < cols_of(arrays[t]) implies concat_walks(arrays, 1)[row_major(
            total_cols(arrays.subrange(0, t)) + c,
            r,
            nr,
        )] == #[trigger] at(arrays[t], r, c) by {
            if t < k {
                assert(arrays.subrange(0, t) =~= rest.subrange(0, t));
                assert(rest[t] == arrays[t]);
                lemma_total_cols_prefix(rest, t + 1);
                lemma_total_cols_prefix(rest, t);
                lemma_prefix_push(rest, t);
                let pre = total_cols(rest.subrange(0, t));
                assert(total_cols(rest.subrange(0, t + 1)) == pre + cols_of(rest[t]));
                lemma_row_major_bounds(pre + c, r, tc, nr);
                assert(concat_walks(rest, 1)[row_major(pre + c, r, nr)] == at(rest[t], r, c));
            } else {
                assert(arrays.subrange(0, t) =~= rest);
                lemma_column_walk_entry(r, c, nr, cols_of(last));
                assert(row_major(tc + c, r, nr) - tc * nr == row_major(c, r, nr)) by (nonlinear_arith);
            }
        }
    }
}

/// `concatenate_2d` places the matrices one below the other (axis 0) or side
/// by side (axis 1), in order: entry `(r, c)` of matrix `t` is, in the result
/// as the contract of `concatenate_2d` states it, in row `r` (axis 0) or column
/// `c` (axis 1) plus the rows or columns of the matrices before it.
pub proof fn concatenate_2d_by_blocks<A: Shaped<(usize, usize)> + ?Sized>(arrays: Seq<&A>, axis: u8)
    requires
        axis == 0 || axis == 1,
        arrays.len() > 0,
        all_well_formed(arrays),
        axis == 0 ==> forall|t: int| 0 <= t < arrays.len() ==> cols_of(#[trigger] arrays[t]) == cols_of(arrays[0]),
        axis == 1 ==> forall|t: int| 0 <= t < arrays.len() ==> rows_of(#[trigger] arrays[t]) == rows_of(arrays[0]),
    ensures
        axis == 0 ==> forall|t: int, r: int, c: int|
            0 <= t < arrays.len() && 0 <= r < rows_of(arrays[t]) && 0 <= c < cols_of(arrays[0]) ==> concat_walks(
                arrays,
                0,
            )[row_major(total_rows(arrays.subrange(0, t)) + r, c, cols_of(arrays[0]))] == #[trigger] at(
                arrays[t],
                r,
                c,
            ),
        axis == 1 ==> forall|t: int, r: int, c: int|
            0 <= t < arrays.len() && 0 <= r < rows_of(arrays[0]) && 0 <= c < cols_of(arrays[t]) ==> filled(
                concat_walks(arrays, 1),
                rows_of(arrays[0]),
                total_cols(arrays),
                1,
            )[row_major(r, total_cols(arrays.subrange(0, t)) + c, total_cols(arrays))] == #[trigger] at(
                arrays[t],
                r,
                c,
            ),
{
    if axis == 0 {
        lemma_concat_rows(arrays, cols_of(arrays[0]));
    } else {
        let nr = rows_of(arrays[0]);
        lemma_concat_cols(arrays, nr);
        assert forall|t: int, r: int, c: int|
            0 <= t < arrays.len() && 0 <= r < nr && 0 <= c < cols_of(arrays[t]) implies filled(
            concat_walks(arrays, 1),
            nr,
            total_cols(arrays),
            1,
        )[row_major(r, total_cols(arrays.subrange(0, t)) + c, total_cols(arrays))] == #[trigger] at(arrays[t], r, c) by {
            lemma_total_cols_prefix(arrays, t + 1);
            lemma_total_cols_prefix(arrays, t);
            lemma_prefix_push(arrays, t);
            let pre = total_cols(arrays.subrange(0, t));
            assert(total_cols(arrays.subrange(0, t + 1)) == pre + cols_of(arrays[t]));
            lemma_filled_cols(concat_walks(arrays, 1), nr, total_cols(arrays), r, pre + c);
        }
    }
}

/// The `n` by `n` identity matrix.
pub open spec fn is_identity<A: Shaped<(usize, usize)> + ?Sized>(e: &A, n: int) -> bool {
    &&& has_shape(e, n, n)
    &&& forall|r: int, c: int| 0 <= r < n && 0 <= c < n ==> #[trigger] at(e, r, c) == if r == c { 1i32 } else { 0i32 }
}

/// A dot product with the `c`-th unit vector of length `k` picks element `c`.
proof fn dot_with_unit(a: Seq<i32>, u: Seq<i32>, c: int, k: int)
    requires
        0 <= k <= u.len(),
        forall|i: int| 0 <= i < u.len() ==> #[trigger] u[i] == if i == c { 1i32 } else { 0i32 },
    ensures
        dot_prefix(a, u, k) == if 0 <= c < k { a[c] as int } else { 0 },
        dot_prefix(u, a, k) == if 0 <= c < k { a[c] as int } else { 0 },
    decreases k,
{
    if k > 0 {
        dot_with_unit(a, u, c, k - 1);
    }
}

/// Multiplying by the identity matrix, on either side, gives back the matrix:
/// every entry of the product, as `matmul` states it, is the entry of `m`.
pub proof fn identity_is_neutral<A: Shaped<(usize, usize)> + ?Sized, E: Shaped<(usize, usize)> + ?Sized, F: Shaped<(usize, usize)> + ?Sized>(
    m: &A,
    right: &E,
    left: &F,
)
    requires
        has_shape(m, rows_of(m), cols_of(m)),
        is_identity(right, cols_of(m)),
        is_identity(left, rows_of(m)),
    ensures
        forall|r: int, c: int|
            0 <= r < rows_of(m) && 0 <= c < cols_of(m) ==> dot_prefix(row_of(m, r), col_of(right, c), cols_of(m))
                == at(m, r, c),
        forall|r: int, c: int|
            0 <= r < rows_of(m) && 0 <= c < cols_of(m) ==> dot_prefix(row_of(left, r), col_of(m, c), rows_of(m))
                == at(m, r, c),
{
    assert forall|r: int, c: int|
        0 <= r < rows_of(m) && 0 <= c < cols_of(m) implies dot_prefix(row_of(m, r), col_of(right, c), cols_of(m))
        == at(m, r, c) by {
        dot_with_unit(row_of(m, r), col_of(right, c), c, cols_of(m));
    }
    assert forall|r: int, c: int|
        0 <= r < rows_of(m) && 0 <= c < cols_of(m) implies dot_prefix(row_of(left, r), col_of(m, c), rows_of(m))
        == at(m, r, c) by {
        dot_with_unit(col_of(m, c), row_of(left, r), r, rows_of(m));
    }
}

} // verus!
