use linalg_base::array::{Array, MutArray};
use linalg_base::array1::Array1;
use linalg_base::array2::Array2;
use linalg_base::matrix::DenseMatrix;
use linalg_base::view1::{ArrayView1, MutArrayView1};
use linalg_base::view2::{ArrayView2, MutArrayView2};

#[test]
fn test_dot() {
    let a = vec![1, 2, 3];
    let b = vec![1, 2, 3];
    let c = vec![4, 5, 6];

    assert_eq!(b.slice(0..2).dot(c.slice(0..2)), 14);
    assert_eq!(b.slice(0..3).dot(&c), 32);
    assert_eq!(b.dot(&c), 32);
    assert_eq!(a.dot(&a), 14);
}

#[test]
fn test_vec_chaining() {
    let mut x: Vec<i32> = Vec::zeros(6);

    x.add_scalar(5);
    assert_eq!(vec!(5, 5, 5, 5, 5, 5), x.add_scalar(5));
    {
        let x_s = x.slice_mut(0..3);
        x_s.add_scalar_mut(1);
    }

    assert_eq!(vec!(1, 1, 1, 0, 0, 0), x);
}

#[test]
fn test_vec_unique() {
    let n = vec![1, 2, 2, 3, 4, 5, 3, 2];
    assert_eq!(
        n.unique_with_indices(),
        (vec!(1, 2, 3, 4, 5), vec!(0, 1, 1, 2, 3, 4, 2, 1))
    );
    assert_eq!(n.unique(), vec!(1, 2, 3, 4, 5));
    assert_eq!(Vec::<i32>::zeros(100).unique(), vec![0]);
    assert_eq!(Vec::<i32>::zeros(100).slice(0..10).unique(), vec![0]);
}

#[test]
fn test_vec_abs() {
    let mut x = vec![-1, 2, -3];
    x.abs_mut();
    assert_eq!(x, vec![1, 2, 3]);
}

#[test]
fn test_vec_neg() {
    let mut x = vec![-1, 2, -3];
    x.neg_mut();
    assert_eq!(x, vec![1, -2, 3]);
}

#[test]
fn test_vec_copy_from() {
    let x = vec![1, 2, 3];
    let mut y = Vec::<i32>::zeros(3);
    y.copy_from(&x);
    assert_eq!(y, vec![1, 2, 3]);
}

#[test]
fn test_vec_element_ops() {
    let mut x = vec![1, 2, 3, 4];
    x.slice_mut(0..1).mul_element_mut(0, 4);
    x.slice_mut(1..2).add_element_mut(0, 1);
    x.slice_mut(2..3).sub_element_mut(0, 1);
    x.slice_mut(3..4).div_element_mut(0, 4);
    assert_eq!(x, vec![4, 3, 2, 1]);
}

#[test]
fn test_vec_ops() {
    assert_eq!(vec![1, 2, 3, 4].mul_scalar(2), vec![2, 4, 6, 8]);
    assert_eq!(vec![1, 2, 3, 4].add_scalar(2), vec![3, 4, 5, 6]);
    assert_eq!(vec![1, 2, 3, 4].sub_scalar(1), vec![0, 1, 2, 3]);
    assert_eq!(vec![1, 2, 3, 4].div_scalar(2), vec![0, 1, 1, 2]);
}

#[test]
fn test_vec_init() {
    assert_eq!(Vec::<i32>::ones(3), vec![1, 1, 1]);
    assert_eq!(Vec::<i32>::zeros(3), vec![0, 0, 0]);
}

#[test]
fn test_vec_min_max() {
    assert_eq!(ArrayView1::min(&vec![1, 2, 3, 4, 5, 6]), 1);
    assert_eq!(ArrayView1::max(&vec![1, 2, 3, 4, 5, 6]), 6);
}

#[test]
fn test_vec_take() {
    assert_eq!(vec![1, 2, 3, 4, 5, 6].take(&[0, 4, 5]), vec![1, 5, 6]);
}

#[test]
fn test_vec_quicksort() {
    let arr1 = vec![3, 1, 2, 4, 9, 5, 7, 6, 8];
    assert_eq!(vec![1, 2, 0, 3, 5, 7, 6, 8, 4], arr1.argsort());

    let arr2 = vec![
        2, 2, 2, 2, 2, 4, 3, 2, 2, 1, 14, 15, 15, 13, 15, 13, 16, 10, 13, 14,
    ];
    assert_eq!(
        vec![9, 7, 1, 8, 0, 2, 4, 3, 6, 5, 17, 18, 15, 13, 19, 10, 14, 11, 12, 16],
        arr2.argsort()
    );
}

#[test]
fn test_vec_max_diff() {
    let a = vec![1, 2, 3, 4, -5, 6];
    let b = vec![2, 3, 4, 1, 0, -12];
    assert_eq!(a.max_diff(&b), 18);
    assert_eq!(b.max_diff(&b), 0);
}

#[test]
fn test_min_max() {
    assert_eq!(
        DenseMatrix::from_2d_array(&[&[1, 2, 3], &[4, 5, 6]]).max(0),
        vec!(4, 5, 6)
    );
    assert_eq!(
        DenseMatrix::from_2d_array(&[&[1, 2, 3], &[4, 5, 6]]).max(1),
        vec!(3, 6)
    );
    assert_eq!(
        DenseMatrix::from_2d_array(&[&[1, 2, 3], &[4, 5, 6]]).min(0),
        vec!(1, 2, 3)
    );
    assert_eq!(
        DenseMatrix::from_2d_array(&[&[1, 2, 3], &[4, 5, 6]]).min(1),
        vec!(1, 4)
    );
}

#[test]
fn test_argmax() {
    assert_eq!(
        DenseMatrix::from_2d_array(&[&[1, 5, 3], &[4, 2, 6]]).argmax(0),
        vec!(1, 0, 1)
    );
    assert_eq!(
        DenseMatrix::from_2d_array(&[&[4, 2, 3], &[1, 5, 6]]).argmax(1),
        vec!(0, 2)
    );
}

#[test]
fn test_sum() {
    assert_eq!(
        DenseMatrix::from_2d_array(&[&[1, 2, 3], &[4, 5, 6]]).sum(0),
        vec!(5, 7, 9)
    );
    assert_eq!(
        DenseMatrix::from_2d_array(&[&[1, 2, 3], &[4, 5, 6]]).sum(1),
        vec!(6, 15)
    );
}

#[test]
fn test_abs() {
    let mut x = DenseMatrix::from_2d_array(&[&[-1, 2, -3], &[4, -5, 6]]);
    x.abs_mut();
    assert_eq!(x, DenseMatrix::from_2d_array(&[&[1, 2, 3], &[4, 5, 6]]));
}

#[test]
fn test_neg() {
    let mut x = DenseMatrix::from_2d_array(&[&[-1, 2, -3], &[4, -5, 6]]);
    x.neg_mut();
    assert_eq!(x, DenseMatrix::from_2d_array(&[&[1, -2, 3], &[-4, 5, -6]]));
}

#[test]
fn test_copy_from() {
    let x = DenseMatrix::from_2d_array(&[&[1, 2, 3], &[4, 5, 6]]);
    let mut y = DenseMatrix::zeros(2, 3);
    y.copy_from(&x);
    assert_eq!(y, DenseMatrix::from_2d_array(&[&[1, 2, 3], &[4, 5, 6]]));
}

#[test]
fn test_init() {
    let x = DenseMatrix::from_2d_array(&[&[1, 2, 3], &[4, 5, 6]]);
    assert_eq!(
        DenseMatrix::zeros(2, 2),
        DenseMatrix::from_2d_array(&[&[0, 0], &[0, 0]])
    );
    assert_eq!(
        DenseMatrix::ones(2, 2),
        DenseMatrix::from_2d_array(&[&[1, 1], &[1, 1]])
    );
    assert_eq!(
        DenseMatrix::eye(3),
        DenseMatrix::from_2d_array(&[&[1, 0, 0], &[0, 1, 0], &[0, 0, 1]])
    );
    assert_eq!(
        DenseMatrix::from_slice(&x.slice(0..2, 0..2)),
        DenseMatrix::from_2d_array(&[&[1, 2], &[4, 5]])
    );
    assert_eq!(
        DenseMatrix::from_row(&x.get_row(0)),
        DenseMatrix::from_2d_array(&[&[1, 2, 3]])
    );
    assert_eq!(
        DenseMatrix::from_column(&x.get_col(0)),
        DenseMatrix::from_2d_array(&[&[1], &[4]])
    );
}

#[test]
fn test_transpose() {
    let x = DenseMatrix::from_2d_array(&[&[1, 2, 3], &[4, 5, 6]]);
    assert_eq!(
        x.transpose(),
        DenseMatrix::from_2d_array(&[&[1, 4], &[2, 5], &[3, 6]])
    );
}

#[test]
fn test_reshape() {
    let x = DenseMatrix::from_2d_array(&[&[1, 2, 3], &[4, 5, 6]]);
    assert_eq!(
        x.reshape(3, 2, 0),
        DenseMatrix::from_2d_array(&[&[1, 2], &[3, 4], &[5, 6]])
    );
    assert_eq!(
        x.reshape(3, 2, 1),
        DenseMatrix::from_2d_array(&[&[1, 4], &[2, 5], &[3, 6]])
    );
}

#[test]
fn test_matmul() {
    let a = DenseMatrix::from_2d_array(&[&[1, 2, 3], &[4, 5, 6]]);
    let b = DenseMatrix::from_2d_array(&[&[1, 2], &[3, 4], &[5, 6]]);
    assert_eq!(
        a.matmul(&b.slice(0..3, 0..2)),
        DenseMatrix::from_2d_array(&[&[22, 28], &[49, 64]])
    );
    assert_eq!(
        a.matmul(&b),
        DenseMatrix::from_2d_array(&[&[22, 28], &[49, 64]])
    );
}

#[test]
fn test_concat() {
    let a = DenseMatrix::from_2d_array(&[&[1, 2], &[3, 4]]);
    let b = DenseMatrix::from_2d_array(&[&[5, 6], &[7, 8]]);

    assert_eq!(
        DenseMatrix::concatenate_1d(&[&vec!(1, 2, 3), &vec!(4, 5, 6)], 0),
        DenseMatrix::from_2d_array(&[&[1, 2, 3], &[4, 5, 6]])
    );
    assert_eq!(
        DenseMatrix::concatenate_1d(&[&vec!(1, 2), &vec!(3, 4)], 1),
        DenseMatrix::from_2d_array(&[&[1, 3], &[2, 4]])
    );
    assert_eq!(
        DenseMatrix::concatenate_2d(&[&a.clone(), &b.clone()], 0),
        DenseMatrix::from_2d_array(&[&[1, 2], &[3, 4], &[5, 6], &[7, 8]])
    );
    assert_eq!(
        DenseMatrix::concatenate_2d(&[&a, &b], 1),
        DenseMatrix::from_2d_array(&[&[1, 2, 5, 6], &[3, 4, 7, 8]])
    );
}

#[test]
fn test_take() {
    let a = DenseMatrix::from_2d_array(&[&[1, 2, 3], &[4, 5, 6]]);
    let b = DenseMatrix::from_2d_array(&[&[1, 2], &[3, 4], &[5, 6]]);

    assert_eq!(
        a.take(&[0, 2], 1),
        DenseMatrix::from_2d_array(&[&[1, 3], &[4, 6]])
    );
    assert_eq!(
        b.take(&[0, 2], 0),
        DenseMatrix::from_2d_array(&[&[1, 2], &[5, 6]])
    );
}

#[test]
fn test_merge() {
    let a = DenseMatrix::from_2d_array(&[&[1, 2], &[3, 4]]);

    assert_eq!(
        DenseMatrix::from_2d_array(&[&[1, 2], &[3, 4], &[5, 6], &[7, 8]]),
        a.merge_1d(&[&vec!(5, 6), &vec!(7, 8)], 0, true)
    );
    assert_eq!(
        DenseMatrix::from_2d_array(&[&[5, 6], &[7, 8], &[1, 2], &[3, 4]]),
        a.merge_1d(&[&vec!(5, 6), &vec!(7, 8)], 0, false)
    );
    assert_eq!(
        DenseMatrix::from_2d_array(&[&[1, 2, 5, 7], &[3, 4, 6, 8]]),
        a.merge_1d(&[&vec!(5, 6), &vec!(7, 8)], 1, true)
    );
    assert_eq!(
        DenseMatrix::from_2d_array(&[&[5, 7, 1, 2], &[6, 8, 3, 4]]),
        a.merge_1d(&[&vec!(5, 6), &vec!(7, 8)], 1, false)
    );
}

#[test]
fn test_ops() {
    assert_eq!(
        DenseMatrix::from_2d_array(&[&[1, 2], &[3, 4]]).mul_scalar(2),
        DenseMatrix::from_2d_array(&[&[2, 4], &[6, 8]])
    );
    assert_eq!(
        DenseMatrix::from_2d_array(&[&[1, 2], &[3, 4]]).add_scalar(2),
        DenseMatrix::from_2d_array(&[&[3, 4], &[5, 6]])
    );
    assert_eq!(
        DenseMatrix::from_2d_array(&[&[1, 2], &[3, 4]]).sub_scalar(1),
        DenseMatrix::from_2d_array(&[&[0, 1], &[2, 3]])
    );
    assert_eq!(
        DenseMatrix::from_2d_array(&[&[1, 2], &[3, 4]]).div_scalar(2),
        DenseMatrix::from_2d_array(&[&[0, 1], &[1, 2]])
    );
}

#[test]
fn test_vstack() {
    let a = DenseMatrix::from_2d_array(&[&[1, 2, 3], &[4, 5, 6], &[7, 8, 9]]);
    let b = DenseMatrix::from_2d_array(&[&[1, 2, 3], &[4, 5, 6]]);
    let expected = DenseMatrix::from_2d_array(&[
        &[1, 2, 3],
        &[4, 5, 6],
        &[7, 8, 9],
        &[1, 2, 3],
        &[4, 5, 6],
    ]);
    let result = a.v_stack(&b);
    assert_eq!(result, expected);
}

#[test]
fn test_hstack() {
    let a = DenseMatrix::from_2d_array(&[&[1, 2, 3], &[4, 5, 6], &[7, 8, 9]]);
    let b = DenseMatrix::from_2d_array(&[&[1, 2], &[3, 4], &[5, 6]]);
    let expected =
        DenseMatrix::from_2d_array(&[&[1, 2, 3, 1, 2], &[4, 5, 6, 3, 4], &[7, 8, 9, 5, 6]]);
    let result = a.h_stack(&b);
    assert_eq!(result, expected);
}

#[test]
fn test_vec_map() {
    let a = vec![1, 2, 3, 4];
    let expected = vec![2, 4, 6, 8];
    let result: Vec<i32> = a.map(|&v| v * 2);
    assert_eq!(result, expected);
}

#[test]
fn test_map() {
    let a = DenseMatrix::from_2d_array(&[&[1, 2, 3], &[4, 5, 6]]);
    let expected = DenseMatrix::from_2d_array(&[&[10, 20, 30], &[40, 50, 60]]);
    let result = a.map(|&v| v * 10);
    assert_eq!(result, expected);
}
