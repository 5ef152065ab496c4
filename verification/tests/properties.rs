use linalg_base::array::{Array, MutArray};
use linalg_base::array1::Array1;
use linalg_base::array2::Array2;
use linalg_base::matrix::DenseMatrix;
use linalg_base::view1::{ArrayView1, MutArrayView1};
use linalg_base::view2::{ArrayView2, MutArrayView2};

fn m(rows: &[&[i32]]) -> DenseMatrix {
    DenseMatrix::from_2d_array(rows)
}

#[test]
fn set_then_get_on_vector() {
    let mut v = vec![1, 2, 3];
    v.set(1, 9);
    assert_eq!(*v.get(1), 9);
    assert_eq!(*v.get(0), 1);
    assert_eq!(*v.get(2), 3);
}

#[test]
fn set_then_get_on_matrix() {
    let mut a = m(&[&[1, 2], &[3, 4]]);
    a.set((1, 0), 7);
    assert_eq!(*a.get((1, 0)), 7);
    assert_eq!(a, m(&[&[1, 2], &[7, 4]]));
}

#[test]
fn shape_and_emptiness() {
    let a = m(&[&[1, 2, 3], &[4, 5, 6]]);
    assert_eq!(a.shape(), (2, 3));
    assert!(!a.is_empty());
    assert!(Vec::<i32>::new().is_empty());
    assert!(!vec![1].is_empty());
    assert_eq!(DenseMatrix::zeros(0, 3).shape(), (0, 3));
    assert!(DenseMatrix::zeros(0, 3).is_empty());
}

#[test]
fn iterator_walks_rows_or_columns() {
    let a = m(&[&[1, 2, 3], &[4, 5, 6]]);
    assert_eq!(a.iterator(0), vec![1, 2, 3, 4, 5, 6]);
    assert_eq!(a.iterator(1), vec![1, 4, 2, 5, 3, 6]);
    assert_eq!(vec![7, 8].iterator(0), vec![7, 8]);
}

#[test]
fn swap_twice_restores() {
    let mut v = vec![1, 2, 3, 4];
    v.swap(0, 3);
    assert_eq!(v, vec![4, 2, 3, 1]);
    v.swap(0, 3);
    assert_eq!(v, vec![1, 2, 3, 4]);

    let mut a = m(&[&[1, 2], &[3, 4]]);
    a.swap((0, 1), (1, 0));
    assert_eq!(a, m(&[&[1, 3], &[2, 4]]));
}

#[test]
fn add_then_sub_scalar_restores() {
    let v = vec![-4, 0, 9];
    assert_eq!(v.add_scalar(7).sub_scalar(7), v);
    let mut w = v.clone();
    w.add_scalar_mut(3);
    assert_eq!(w, vec![-1, 3, 12]);
    w.sub_scalar_mut(3);
    assert_eq!(w, v);
}

#[test]
fn mul_then_div_scalar_restores() {
    let v = vec![-4, 0, 9, 5];
    assert_eq!(v.mul_scalar(-3), vec![12, 0, -27, -15]);
    assert_eq!(v.mul_scalar(-3).div_scalar(-3), v);
}

#[test]
fn division_rounds_toward_zero() {
    assert_eq!(vec![-7, 7, -1, 1].div_scalar(2), vec![-3, 3, 0, 0]);
    assert_eq!(vec![-9, 9].div(&vec![2, -2]), vec![-4, -4]);
    let mut x = vec![-7];
    x.div_element_mut(0, 3);
    assert_eq!(x, vec![-2]);
    assert_eq!(
        m(&[&[-5, 5], &[6, -6]]).div_scalar(4),
        m(&[&[-1, 1], &[1, -1]])
    );
}

#[test]
fn elementwise_arithmetic_on_vectors() {
    let a = vec![1, -2, 3];
    let b = vec![4, 5, -6];
    assert_eq!(a.add(&b), vec![5, 3, -3]);
    assert_eq!(a.sub(&b), vec![-3, -7, 9]);
    assert_eq!(a.mul(&b), vec![4, -10, -18]);
    assert_eq!(b.div(&a), vec![4, -2, -2]);
    let mut c = a.clone();
    c.add_mut(&b);
    assert_eq!(c, vec![5, 3, -3]);
    c.sub_mut(&b);
    assert_eq!(c, a);
    c.mul_mut(&b);
    assert_eq!(c, vec![4, -10, -18]);
    c.div_mut(&b);
    assert_eq!(c, a);
}

#[test]
fn elementwise_arithmetic_on_matrices() {
    let a = m(&[&[1, 2], &[3, 4]]);
    let b = m(&[&[5, -6], &[7, 8]]);
    assert_eq!(a.add(&b), m(&[&[6, -4], &[10, 12]]));
    assert_eq!(a.sub(&b), m(&[&[-4, 8], &[-4, -4]]));
    assert_eq!(a.mul(&b), m(&[&[5, -12], &[21, 32]]));
    assert_eq!(b.div(&a), m(&[&[5, -3], &[2, 2]]));
    let mut c = a.clone();
    c.mul_scalar_mut(3);
    assert_eq!(c, m(&[&[3, 6], &[9, 12]]));
    c.div_scalar_mut(3);
    assert_eq!(c, a);
}

#[test]
fn neg_twice_restores() {
    let v = vec![-1, 0, 2];
    assert_eq!(v.neg(), vec![1, 0, -2]);
    assert_eq!(v.neg().neg(), v);
    let a = m(&[&[1, -2], &[0, 3]]);
    assert_eq!(a.neg().neg(), a);
}

#[test]
fn abs_is_idempotent() {
    let v = vec![-5, 0, 5, -1];
    assert_eq!(v.abs(), vec![5, 0, 5, 1]);
    assert_eq!(v.abs().abs(), v.abs());
    let a = m(&[&[-1, 2], &[-3, 0]]);
    assert_eq!(a.abs(), m(&[&[1, 2], &[3, 0]]));
}

#[test]
fn dot_commutes_on_example() {
    let a = vec![3, -1, 2];
    let b = vec![-2, 4, 5];
    assert_eq!(a.dot(&b), 0);
    assert_eq!(a.dot(&b), b.dot(&a));
    assert_eq!(vec![2, 3].dot(&vec![4, 5]), 23);
    assert_eq!(Vec::<i32>::new().dot(&Vec::<i32>::new()), 0);
}

#[test]
fn sum_of_elements() {
    assert_eq!(vec![1, -2, 10].sum(), 9);
    assert_eq!(Vec::<i32>::new().sum(), 0);
}

#[test]
fn copy_from_stops_at_shorter() {
    let mut y = vec![0, 0, 0, 0];
    y.copy_from(&vec![1, 2]);
    assert_eq!(y, vec![1, 2, 0, 0]);
    let mut z = vec![0, 0];
    z.copy_from(&vec![7, 8, 9]);
    assert_eq!(z, vec![7, 8]);
}

#[test]
fn argmax_picks_first_of_ties() {
    assert_eq!(vec![3, 7, 7, 1].argmax(), 1);
    assert_eq!(vec![-3].argmax(), 0);
    assert_eq!(Vec::<i32>::new().argmax(), 0);
    let v = vec![2, 9, 4, 9];
    assert_eq!(*v.get(v.argmax()), ArrayView1::max(&v));
}

#[test]
fn max_and_min_of_empty_are_the_type_bounds() {
    assert_eq!(ArrayView1::max(&Vec::<i32>::new()), i32::MIN);
    assert_eq!(ArrayView1::min(&Vec::<i32>::new()), i32::MAX);
}

#[test]
fn min_is_at_most_max() {
    let v = vec![4, -8, 15, 0];
    assert_eq!(ArrayView1::min(&v), -8);
    assert_eq!(ArrayView1::max(&v), 15);
    assert!(ArrayView1::min(&v) <= ArrayView1::max(&v));
}

#[test]
fn unique_sorts_and_removes_repeats() {
    assert_eq!(vec![5, -1, 5, 3, -1].unique(), vec![-1, 3, 5]);
    assert_eq!(Vec::<i32>::new().unique(), Vec::<i32>::new());
    let (u, idx) = vec![9, 1, 9].unique_with_indices();
    assert_eq!(u, vec![1, 9]);
    assert_eq!(idx, vec![1, 0, 1]);
}

#[test]
fn max_diff_is_largest_absolute_difference() {
    assert_eq!(vec![1, 5].max_diff(&vec![4, -5]), 10);
    assert_eq!(Vec::<i32>::new().max_diff(&Vec::<i32>::new()), i32::MIN);
}

#[test]
fn argsort_mut_sorts_in_place() {
    let mut v = vec![3, 1, 2];
    let idx = v.argsort_mut();
    assert_eq!(v, vec![1, 2, 3]);
    assert_eq!(idx, vec![1, 2, 0]);

    let mut one = vec![42];
    assert_eq!(one.argsort_mut(), vec![0]);
    assert_eq!(one, vec![42]);

    let orig = vec![10, -3, 7, 7, 0, 25, -3, 8, 1, 2, 11, 5];
    let mut w = orig.clone();
    let idx = w.argsort_mut();
    for k in 0..w.len() {
        assert_eq!(w[k], orig[idx[k]]);
        if k > 0 {
            assert!(w[k - 1] <= w[k]);
        }
    }
    assert_eq!(orig.argsort(), idx);
}

#[test]
fn vector_constructors() {
    assert_eq!(Vec::<i32>::fill(3, -2), vec![-2, -2, -2]);
    assert_eq!(Vec::<i32>::from_iterator(&[1, 2, 3, 4], 2), vec![1, 2]);
    assert_eq!(Vec::<i32>::from_vec_slice(&[5, 6]), vec![5, 6]);
    assert_eq!(Vec::<i32>::from_slice(&vec![7, 8, 9]), vec![7, 8, 9]);
    assert_eq!(vec![1, 2, 3, 4].slice(1..3), &[2, 3]);
}

#[test]
fn slice_mut_changes_only_the_range() {
    let mut v = vec![1, 2, 3, 4, 5];
    v.slice_mut(1..4).neg_mut();
    assert_eq!(v, vec![1, -2, -3, -4, 5]);
}

#[test]
fn take_picks_listed_positions() {
    assert_eq!(vec![5, 6, 7].take(&[2, 2, 0]), vec![7, 7, 5]);
    assert_eq!(vec![5, 6, 7].take(&[]), Vec::<i32>::new());
    let a = m(&[&[1, 2, 3], &[4, 5, 6]]);
    assert_eq!(a.take(&[1, 1], 0), m(&[&[4, 5, 6], &[4, 5, 6]]));
    assert_eq!(a.take(&[2], 1), m(&[&[3], &[6]]));
}

#[test]
fn map_applies_function() {
    assert_eq!(vec![1, -2].map(|&x| x - 1), vec![0, -3]);
    assert_eq!(m(&[&[1], &[2]]).map(|&x| -x), m(&[&[-1], &[-2]]));
}

#[test]
fn fill_then_walk_gives_back_the_elements() {
    let src = [1, 2, 3, 4, 5, 6];
    let by_rows = DenseMatrix::from_iterator(&src, 2, 3, 0);
    assert_eq!(by_rows, m(&[&[1, 2, 3], &[4, 5, 6]]));
    assert_eq!(by_rows.iterator(0), src.to_vec());
    let by_cols = DenseMatrix::from_iterator(&src, 2, 3, 1);
    assert_eq!(by_cols, m(&[&[1, 3, 5], &[2, 4, 6]]));
    assert_eq!(by_cols.iterator(1), src.to_vec());
    assert_eq!(DenseMatrix::fill(2, 1, 4), m(&[&[4], &[4]]));
}

#[test]
fn rows_and_columns() {
    let a = m(&[&[1, 2, 3], &[4, 5, 6]]);
    assert_eq!(a.get_row(1), vec![4, 5, 6]);
    assert_eq!(a.get_col(2), vec![3, 6]);
    assert_eq!(a.row_iter(), vec![vec![1, 2, 3], vec![4, 5, 6]]);
    assert_eq!(a.col_iter(), vec![vec![1, 4], vec![2, 5], vec![3, 6]]);
    assert_eq!(a.slice(1..2, 0..3), m(&[&[4, 5, 6]]));
}

#[test]
fn transpose_twice_restores() {
    let a = m(&[&[1, 2, 3], &[4, 5, 6]]);
    assert_eq!(a.transpose().transpose(), a);
    assert_eq!(m(&[&[7]]).transpose(), m(&[&[7]]));
}

#[test]
fn identity_is_neutral_for_matmul() {
    let a = m(&[&[1, 2, 3], &[4, 5, 6]]);
    assert_eq!(a.matmul(&DenseMatrix::eye(3)), a);
    assert_eq!(DenseMatrix::eye(2).matmul(&a), a);
    assert_eq!(DenseMatrix::eye(1), m(&[&[1]]));
}

#[test]
fn ab_with_transposes() {
    let a = m(&[&[1, 2], &[3, 4], &[5, 6]]);
    let b = m(&[&[1, 0], &[0, 1], &[1, 1]]);
    assert_eq!(a.ab(true, &b, false), m(&[&[6, 8], &[8, 10]]));
    assert_eq!(a.ab(false, &b, true), m(&[&[1, 2, 3], &[3, 4, 7], &[5, 6, 11]]));
    assert_eq!(a.ab(true, &a, false), a.transpose().matmul(&a));
}

#[test]
fn matrix_reductions_per_axis() {
    let a = m(&[&[3, -1], &[3, 8], &[0, 8]]);
    assert_eq!(a.argmax(0), vec![0, 1]);
    assert_eq!(a.argmax(1), vec![0, 1, 1]);
    assert_eq!(a.sum(0), vec![6, 15]);
    assert_eq!(a.sum(1), vec![2, 11, 8]);
    assert_eq!(ArrayView2::max(&a, 0), vec![3, 8]);
    assert_eq!(ArrayView2::min(&a, 1), vec![-1, 3, 0]);
}

#[test]
fn scale_mut_centres_and_divides() {
    let mut a = m(&[&[1, 2, 3], &[5, 6, 9]]);
    a.scale_mut(&[3, 4, 6], &[2, 2, 3], 0);
    assert_eq!(a, m(&[&[-1, -1, -1], &[1, 1, 1]]));
    let mut b = m(&[&[1, 2, 3], &[4, 5, 6]]);
    b.scale_mut(&[2, 5], &[1, 1], 1);
    assert_eq!(b, m(&[&[-1, 0, 1], &[-1, 0, 1]]));
}

#[test]
fn matrix_copy_and_in_place_signs() {
    let mut a = DenseMatrix::zeros(2, 2);
    a.copy_from(&m(&[&[-1, 2], &[3, -4]]));
    a.abs_mut();
    assert_eq!(a, m(&[&[1, 2], &[3, 4]]));
    a.neg_mut();
    assert_eq!(a, m(&[&[-1, -2], &[-3, -4]]));
}

#[test]
fn reshape_keeps_walk_order() {
    let a = m(&[&[1, 2, 3, 4, 5, 6]]);
    assert_eq!(a.reshape(2, 3, 0), m(&[&[1, 2, 3], &[4, 5, 6]]));
    assert_eq!(a.reshape(6, 1, 0), m(&[&[1], &[2], &[3], &[4], &[5], &[6]]));
    assert_eq!(a.reshape(2, 3, 1).iterator(1), a.iterator(0));
}

#[test]
fn stacking_and_concatenation_shapes() {
    let a = m(&[&[1, 2]]);
    let b = m(&[&[3, 4], &[5, 6]]);
    assert_eq!(a.v_stack(&b), m(&[&[1, 2], &[3, 4], &[5, 6]]));
    assert_eq!(b.h_stack(&b), m(&[&[3, 4, 3, 4], &[5, 6, 5, 6]]));
    assert_eq!(
        DenseMatrix::concatenate_1d(&[&vec![1], &vec![2], &vec![3]], 0),
        m(&[&[1], &[2], &[3]])
    );
    assert_eq!(
        DenseMatrix::concatenate_2d(&[&a, &a, &a], 0),
        m(&[&[1, 2], &[1, 2], &[1, 2]])
    );
}

#[test]
fn merge_1d_with_a_single_line() {
    let a = m(&[&[1, 2], &[3, 4]]);
    assert_eq!(a.merge_1d(&[&vec![9, 9]], 0, true), m(&[&[1, 2], &[3, 4], &[9, 9]]));
    assert_eq!(a.merge_1d(&[&vec![7, 8]], 1, false), m(&[&[7, 1, 2], &[8, 3, 4]]));
}

#[test]
fn matrix_from_vectors() {
    assert_eq!(DenseMatrix::from_row(&vec![1, 2]), m(&[&[1, 2]]));
    assert_eq!(DenseMatrix::from_column(&vec![1, 2]), m(&[&[1], &[2]]));
    assert_eq!(DenseMatrix::ones(1, 2), m(&[&[1, 1]]));
    let a = m(&[&[1, 2], &[3, 4]]);
    assert_eq!(DenseMatrix::from_slice(&a), a);
}

#[test]
fn stacking_agrees_with_concatenation() {
    let a = m(&[&[1, 2], &[3, 4]]);
    let b = m(&[&[5, 6]]);
    assert_eq!(a.v_stack(&b), DenseMatrix::concatenate_2d(&[&a, &b], 0));
    let c = m(&[&[7], &[8]]);
    assert_eq!(a.h_stack(&c), DenseMatrix::concatenate_2d(&[&a, &c], 1));
    assert_eq!(a.h_stack(&c), m(&[&[1, 2, 7], &[3, 4, 8]]));
}

#[test]
fn ab_agrees_with_transposed_matmul() {
    let a = m(&[&[1, 2, 3], &[4, 5, 6]]);
    let b = m(&[&[1, -1], &[2, 0]]);
    assert_eq!(a.ab(true, &b, false), a.transpose().matmul(&b));
    assert_eq!(b.ab(false, &a, false), b.matmul(&a));
    assert_eq!(a.ab(false, &a, true), a.matmul(&a.transpose()));
    assert_eq!(a.ab(true, &b, true), a.transpose().matmul(&b.transpose()));
}

#[test]
fn argsort_fixes_the_order_of_equal_elements() {
    assert_eq!(vec![5; 8].argsort(), vec![0, 5, 6, 3, 4, 1, 2, 7]);
    assert_eq!(
        vec![1, 1, 0, 0, 1, 1, 0, 0, 1, 0].argsort(),
        vec![9, 6, 2, 3, 7, 8, 4, 5, 1, 0]
    );
    let v = vec![4, 4, 4];
    assert_eq!(v.argsort(), vec![0, 1, 2]);
    assert_eq!(v, vec![4, 4, 4]);
}

#[test]
fn unique_agrees_with_unique_with_indices() {
    let v = vec![3, -2, 3, 7, -2];
    assert_eq!(v.unique(), v.unique_with_indices().0);
}

#[test]
fn merge_1d_adds_whole_lines() {
    let a = m(&[&[1, 2, 3]]);
    assert_eq!(
        a.merge_1d(&[&vec![4, 5, 6], &vec![7, 8, 9]], 0, false),
        m(&[&[4, 5, 6], &[7, 8, 9], &[1, 2, 3]])
    );
    assert_eq!(a.merge_1d(&[&vec![0]], 1, true), m(&[&[1, 2, 3, 0]]));
}

#[test]
fn concatenate_2d_keeps_blocks_in_order() {
    let a = m(&[&[1, 2]]);
    let b = m(&[&[3, 4], &[5, 6]]);
    assert_eq!(
        DenseMatrix::concatenate_2d(&[&a, &b, &a], 0),
        m(&[&[1, 2], &[3, 4], &[5, 6], &[1, 2]])
    );
    let c = m(&[&[7], &[8]]);
    assert_eq!(
        DenseMatrix::concatenate_2d(&[&c, &b, &c], 1),
        m(&[&[7, 3, 4, 7], &[8, 5, 6, 8]])
    );
}

#[test]
fn ab_with_an_empty_inner_dimension() {
    let a = DenseMatrix::zeros(0, 2);
    let b = DenseMatrix::zeros(3, 0);
    assert_eq!(a.ab(true, &b, true), DenseMatrix::zeros(2, 3));
}

#[test]
fn scale_mut_on_empty_lines_reads_no_mean() {
    let mut a = DenseMatrix::zeros(0, 3);
    a.scale_mut(&[], &[], 0);
    assert_eq!(a, DenseMatrix::zeros(0, 3));
}
