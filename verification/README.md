# linalg_base

One- and two-dimensional arrays of `i32` with verified contracts: element
access, arithmetic, reductions, sorting, reshaping, stacking and products.

- `src/` is the verified library. `shape.rs` models positions and walks,
  `array.rs` the read and write traits, `vector.rs` their implementations for
  `Vec<i32>` and `[i32]`, `matrix.rs` a dense row-major matrix, `view1.rs` and
  `view2.rs` reductions over vectors and matrices, `sorting.rs` the in-place
  index sort, `array1.rs` and `array2.rs` the operations that build new arrays,
  and `laws.rs` the properties that relate several operations.
- `app/` holds what has no verified counterpart: statistics and transforms that
  produce floating-point numbers, and text display of a matrix.
- `tests/` runs the library on concrete values.
