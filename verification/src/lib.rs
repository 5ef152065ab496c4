//! Verified one- and two-dimensional integer arrays.
pub mod array;
pub mod num;
pub mod shape;
pub mod vector;
pub mod sorting;
pub mod view1;
pub mod matrix;
pub mod view2;
pub mod array1;
pub mod array2;
pub mod laws;
