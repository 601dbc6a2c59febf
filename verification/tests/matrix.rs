use math::linear_algebra::Matrix;
use math::linear_algebra::MatrixError;

#[test]
fn new_rand() {
    let big = Matrix::new_rand(3, 4, 7);
    assert_eq!(big.cols(), 3);
    assert_eq!(big.rows(), 4);
    assert_eq!(big.matrix_flatt().len(), 12);

    let small = Matrix::new_rand(2, 3, 7);
    assert_eq!(small.matrix_flatt().len(), 6);
    // the stream is deterministic in the seed: the smaller matrix holds the
    // first elements of the larger one's stream
    assert_eq!(small.matrix_flatt(), big.matrix_flatt()[..6].to_vec());

    let again = Matrix::new_rand(3, 4, 7);
    assert_eq!(again, big);
}

#[test]
fn det() {
    let matrix = Matrix::new(vec![vec![2, -3, 1], vec![2, 0, -1], vec![1, 4, 5]]).unwrap();
    assert_eq!(matrix.det().unwrap(), 49);
}

#[test]
fn det_not_square() {
    let matrix = Matrix::new(vec![
        vec![2, -3, 1],
        vec![2, 0, -1],
        vec![1, 4, 5],
        vec![2, 0, -1],
    ])
    .unwrap();
    assert_eq!(matrix.det(), Err(MatrixError::NotSquare));
}

#[test]
fn bytes() {
    let matrix = Matrix::new(vec![vec![2, 3], vec![7, 4]]).unwrap();
    assert_eq!(
        matrix.bytes(),
        vec![0, 0, 0, 64, 0, 0, 0, 64, 0, 0, 0, 64, 0, 0, 64, 64, 0, 0, 224, 64, 0, 0, 128, 64]
    );
}

#[test]
fn matrix_flatt() {
    let mut matrix = Matrix::new(vec![vec![2, 3, 5], vec![7, 1, 4]]).unwrap();
    assert_eq!(matrix.matrix_flatt(), vec![2, 3, 5, 7, 1, 4]);
    matrix.transpose();
    assert_eq!(matrix.matrix_flatt(), vec![2, 7, 3, 1, 5, 4]);
}

#[test]
fn new() {
    let result = Matrix::new(vec![vec![2, 3, 5], vec![7, 1, 4, 1]]);
    assert_eq!(
        result.unwrap_err(),
        MatrixError::ShapeError { expected: 3, got: 4 }
    );
}

#[test]
fn mul_scalar() {
    let mut matrix = Matrix::new(vec![vec![2, 3, 5], vec![7, 1, 4]]).unwrap();
    matrix.mul_scalar(&2);
    assert_eq!(
        matrix,
        Matrix::new(vec![vec![2 * 2, 3 * 2, 5 * 2], vec![7 * 2, 1 * 2, 4 * 2]]).unwrap()
    );
}

#[test]
fn div_scalar() {
    let mut matrix = Matrix::new(vec![vec![2, 3, 5], vec![7, 1, 4]]).unwrap();
    matrix.div_scalar(&2);
    assert_eq!(
        matrix,
        Matrix::new(vec![vec![2 / 2, 3 / 2, 5 / 2], vec![7 / 2, 1 / 2, 4 / 2]]).unwrap()
    );
}

#[test]
fn add_scalar() {
    let mut matrix = Matrix::new(vec![vec![2, 3, 5], vec![7, 1, 4]]).unwrap();
    matrix.add_scalar(&2);
    assert_eq!(
        matrix,
        Matrix::new(vec![vec![2 + 2, 3 + 2, 5 + 2], vec![7 + 2, 1 + 2, 4 + 2]]).unwrap()
    );
}

#[test]
fn sub_scalar() {
    let mut matrix = Matrix::new(vec![vec![2, 3, 5], vec![7, 1, 4]]).unwrap();
    matrix.sub_scalar(&2);
    assert_eq!(
        matrix,
        Matrix::new(vec![vec![2 - 2, 3 - 2, 5 - 2], vec![7 - 2, 1 - 2, 4 - 2]]).unwrap()
    );
}

#[test]
fn transpose() {
    let mut matrix = Matrix::new(vec![vec![3, 2, 4], vec![4, 5, 6]]).unwrap();
    assert_eq!(matrix.is_transpose(), false);
    matrix.transpose();
    assert_eq!(matrix.is_transpose(), true);
    matrix.transpose();
    assert_eq!(matrix.is_transpose(), false);
}

#[test]
fn col() {
    let mut matrix = Matrix::new(vec![vec![3, 2, 4], vec![4, 5, 6]]).unwrap();
    assert_eq!(matrix.cols(), 2);
    assert_eq!(matrix.col(0).unwrap(), vec![3, 2, 4]);
    assert_eq!(matrix.col(1).unwrap(), vec![4, 5, 6]);

    matrix.transpose();

    assert_eq!(matrix.cols(), 3);
    assert_eq!(matrix.col(0).unwrap(), vec![3, 4]);
    assert_eq!(matrix.col(1).unwrap(), vec![2, 5]);
    assert_eq!(matrix.col(2).unwrap(), vec![4, 6]);
}

#[test]
fn row() {
    let mut matrix = Matrix::new(vec![vec![3, 2, 4], vec![4, 5, 6]]).unwrap();
    assert_eq!(matrix.row(0).unwrap(), vec![3, 4]);
    assert_eq!(matrix.row(1).unwrap(), vec![2, 5]);
    assert_eq!(matrix.row(2).unwrap(), vec![4, 6]);

    matrix.transpose();

    assert_eq!(matrix.rows(), 2);
    assert_eq!(matrix.row(0).unwrap(), vec![3, 2, 4]);
    assert_eq!(matrix.row(1).unwrap(), vec![4, 5, 6]);
}

#[test]
fn row_out_of_bounds() {
    let matrix = Matrix::new(vec![vec![3, 2, 4], vec![4, 5, 6]]).unwrap();
    assert_eq!(matrix.row(3), Err(MatrixError::IndexOutOfBounds { max: 2 }));
}

#[test]
fn col_out_of_bounds() {
    let matrix = Matrix::new(vec![vec![3, 2, 4], vec![4, 5, 6]]).unwrap();
    assert_eq!(matrix.col(2), Err(MatrixError::IndexOutOfBounds { max: 1 }));
}

#[test]
fn index_logical() {
    // entry (r, c) reads row r of column c: the inner buffers of `new` are
    // the columns
    let matrix = Matrix::new(vec![vec![3, 2, 4], vec![4, 5, 6]]).unwrap();
    assert_eq!(matrix.index(0, 0).unwrap(), 3);
    assert_eq!(matrix.index(1, 0).unwrap(), 2);
    assert_eq!(matrix.index(2, 0).unwrap(), 4);
    assert_eq!(matrix.index(0, 1).unwrap(), 4);
    assert_eq!(matrix.index(1, 1).unwrap(), 5);
    assert_eq!(matrix.index(2, 1).unwrap(), 6);
    assert_eq!(matrix.index(3, 0), Err(MatrixError::IndexOutOfBounds { max: 2 }));
    assert_eq!(matrix.index(0, 2), Err(MatrixError::IndexOutOfBounds { max: 1 }));
}

#[test]
fn dot_mat() {
    let matrix = Matrix::new(vec![vec![1, -1, 2], vec![0, -3, 1]]).unwrap();
    assert_eq!(matrix.dot_vec(&vec![2, 1, 0]).unwrap(), vec![1, -3]);
}

#[test]
fn dot_vec_shape_mismatch() {
    let matrix = Matrix::new(vec![vec![1, -1, 2], vec![0, -3, 1]]).unwrap();
    assert_eq!(
        matrix.dot_vec(&vec![2, 1]),
        Err(MatrixError::ShapeError { expected: 3, got: 2 })
    );
}

#[test]
fn add_vec_shape_mismatch() {
    let mut matrix = Matrix::new(vec![vec![2, -3, 1], vec![2, 0, -1]]).unwrap();
    assert_eq!(
        matrix.add_vec(&vec![2, 4]),
        Err(MatrixError::ShapeError { expected: 3, got: 2 })
    );
}

#[test]
fn add_vec_leaves_last_row_and_col() {
    // the broadcast touches every cell except the last logical row and the
    // last logical column
    let mut matrix = Matrix::new(vec![vec![2, -3, 1], vec![2, 0, -1]]).unwrap();
    matrix.add_vec(&vec![2, 4, 6]).unwrap();
    assert_eq!(matrix.index(0, 0).unwrap(), 2 + 2);
    assert_eq!(matrix.index(1, 0).unwrap(), -3 + 4);
    // last row untouched
    assert_eq!(matrix.index(2, 0).unwrap(), 1);
    // last column untouched
    assert_eq!(matrix.col(1).unwrap(), vec![2, 0, -1]);
}

#[test]
fn shape_invariant() {
    let mut matrix = Matrix::new_rand(3, 4, 99);
    assert_eq!(matrix.matrix_flatt().len(), matrix.cols() * matrix.rows());
    matrix.transpose();
    assert_eq!(matrix.matrix_flatt().len(), matrix.cols() * matrix.rows());
    let zero = Matrix::new_zero(5, 2);
    assert_eq!(zero.matrix_flatt().len(), zero.cols() * zero.rows());
    assert_eq!(zero.matrix_flatt(), vec![0; 10]);
}

#[test]
fn transpose_involution() {
    let mut matrix = Matrix::new(vec![vec![3, 2, 4], vec![4, 5, 6]]).unwrap();
    let before_flag = matrix.is_transpose();
    let before: Vec<Vec<i64>> = (0..matrix.rows())
        .map(|r| (0..matrix.cols()).map(|c| matrix.index(r, c).unwrap()).collect())
        .collect();
    matrix.transpose();
    matrix.transpose();
    assert_eq!(matrix.is_transpose(), before_flag);
    for r in 0..matrix.rows() {
        for c in 0..matrix.cols() {
            assert_eq!(matrix.index(r, c).unwrap(), before[r][c]);
        }
    }
}

#[test]
fn transpose_swaps_shape_and_indices() {
    let original = Matrix::new(vec![vec![3, 2, 4], vec![4, 5, 6]]).unwrap();
    let mut matrix = Matrix::new(vec![vec![3, 2, 4], vec![4, 5, 6]]).unwrap();
    matrix.transpose();
    assert_eq!(matrix.cols(), original.rows());
    assert_eq!(matrix.rows(), original.cols());
    for r in 0..matrix.rows() {
        for c in 0..matrix.cols() {
            assert_eq!(matrix.index(r, c).unwrap(), original.index(c, r).unwrap());
        }
    }
}

#[test]
fn scalar_identities() {
    let mut added = Matrix::new(vec![vec![2, -3, 1], vec![2, 0, -1]]).unwrap();
    let reference = Matrix::new(vec![vec![2, -3, 1], vec![2, 0, -1]]).unwrap();
    added.add_scalar(&0);
    assert_eq!(added, reference);
    assert_eq!(added.is_transpose(), reference.is_transpose());
    assert_eq!(added.matrix_flatt(), reference.matrix_flatt());

    let mut multiplied = Matrix::new(vec![vec![2, -3, 1], vec![2, 0, -1]]).unwrap();
    multiplied.mul_scalar(&1);
    assert_eq!(multiplied, reference);
    assert_eq!(multiplied.matrix_flatt(), reference.matrix_flatt());
}

#[test]
fn add_mat_sub_mat_roundtrip() {
    let mut matrix = Matrix::new(vec![vec![2, -3, 1], vec![2, 0, -1]]).unwrap();
    let original_flatt = matrix.matrix_flatt();
    let other = Matrix::new(vec![vec![2, 3, 5], vec![7, 1, 4]]).unwrap();
    matrix.add_mat(&other).unwrap();
    matrix.sub_mat(&other).unwrap();
    assert_eq!(matrix.matrix_flatt(), original_flatt);
}

#[test]
fn add_mat_shape_mismatch() {
    let mut matrix = Matrix::new(vec![vec![2, -3, 1], vec![2, 0, -1]]).unwrap();
    let other = Matrix::new(vec![vec![2, 3], vec![7, 1]]).unwrap();
    assert_eq!(
        matrix.add_mat(&other),
        Err(MatrixError::ShapeError { expected: 3, got: 2 })
    );
}

#[test]
fn mul_mat_elementwise() {
    let mut matrix1 = Matrix::new(vec![vec![2, -3, 1], vec![2, 0, -1]]).unwrap();
    let matrix2 = Matrix::new(vec![vec![2, 3, 5], vec![7, 1, 4]]).unwrap();
    matrix1.mul_mat(&matrix2).unwrap();
    assert_eq!(
        matrix1,
        Matrix::new(vec![vec![4, -9, 5], vec![14, 0, -4]]).unwrap()
    );
}

#[test]
fn div_mat_elementwise() {
    let mut matrix1 = Matrix::new(vec![vec![9, -8, 5], vec![7, 3, -4]]).unwrap();
    let matrix2 = Matrix::new(vec![vec![2, 3, 5], vec![7, 1, 4]]).unwrap();
    matrix1.div_mat(&matrix2).unwrap();
    assert_eq!(
        matrix1,
        Matrix::new(vec![vec![4, -2, 1], vec![1, 3, -1]]).unwrap()
    );
}

#[test]
fn det_base_case() {
    let matrix = Matrix::new(vec![vec![1, 2], vec![3, 4]]).unwrap();
    assert_eq!(matrix.det().unwrap(), -2);
}

#[test]
fn det_degenerate() {
    let matrix = Matrix::new(vec![vec![5]]).unwrap();
    assert_eq!(matrix.det(), Err(MatrixError::DegenerateMatrix));
}

#[test]
fn outer_product() {
    let matrix = Matrix::new_outer(&vec![2, 4, 3], &vec![2, 7, 9]);
    assert_eq!(
        matrix,
        Matrix::new_flatt(vec![4, 14, 18, 8, 28, 36, 6, 21, 27], 3, 3).unwrap()
    );
    assert_eq!(matrix.cols(), 3);
    assert_eq!(matrix.rows(), 3);
}

#[test]
fn new_flatt_shape_mismatch() {
    assert_eq!(
        Matrix::new_flatt(vec![3, 2, 4, 4, 5], 2, 3),
        Err(MatrixError::ShapeError { expected: 6, got: 5 })
    );
}

#[test]
fn set_index_writes_one_cell() {
    let mut matrix = Matrix::new(vec![vec![2, 3, 5], vec![7, 1, 4]]).unwrap();
    matrix.set_index(0, 1, 10).unwrap();
    assert_eq!(matrix.index(0, 1).unwrap(), 10);
    assert_eq!(matrix.index(0, 0).unwrap(), 2);
    assert_eq!(matrix.matrix_flatt(), vec![2, 3, 5, 10, 1, 4]);
    assert_eq!(
        matrix.set_index(0, 2, 1),
        Err(MatrixError::IndexOutOfBounds { max: 1 })
    );
}

#[test]
fn sums() {
    let matrix = Matrix::new(vec![vec![3, 1], vec![5, 3]]).unwrap();
    assert_eq!(matrix.sum(), 12);
    assert_eq!(matrix.sum_vec(), vec![8, 4]);
}

#[test]
fn unimplemented_operations() {
    let mut square = Matrix::new(vec![vec![1, 2], vec![3, 4]]).unwrap();
    assert_eq!(square.eigen_val(), Err(MatrixError::NotImplemented));
    assert_eq!(square.eigen_vec(), Err(MatrixError::NotImplemented));
    assert_eq!(square.inv(), Err(MatrixError::NotImplemented));
    let other = Matrix::new(vec![vec![1, 2], vec![3, 4]]).unwrap();
    assert_eq!(square.dot_mat(&other), Err(MatrixError::NotImplemented));

    let not_square = Matrix::new(vec![vec![1, 2], vec![3, 4], vec![5, 6]]).unwrap();
    assert_eq!(not_square.eigen_val(), Err(MatrixError::NotSquare));

    let mut singular = Matrix::new(vec![vec![1, 2], vec![2, 4]]).unwrap();
    assert_eq!(singular.inv(), Err(MatrixError::SingularMatrix));
}

#[test]
fn apply_func_doubles() {
    let mut matrix = Matrix::new(vec![vec![2, 3, 5], vec![7, 1, 4]]).unwrap();
    let double = |x: i64| x * 2;
    matrix.apply_func_val(&double);
    assert_eq!(matrix.matrix_flatt(), vec![4, 6, 10, 14, 2, 8]);
}

#[test]
fn bytes_negative_and_large() {
    // -2 encodes as 2.0 with the sign bit set: [0, 0, 0, 192]
    let matrix = Matrix::new(vec![vec![-2]]).unwrap();
    let bytes = matrix.bytes();
    // rows = 1 -> 1.0f32 = [0, 0, 128, 63], cols = 1 likewise
    assert_eq!(bytes[0..4].to_vec(), vec![0, 0, 128, 63]);
    assert_eq!(bytes[4..8].to_vec(), vec![0, 0, 128, 63]);
    assert_eq!(bytes[8..12].to_vec(), vec![0, 0, 0, 192]);

    // 16777217 = 2^24 + 1 rounds to 2^24 (ties to even):
    // 2^24f32 has bits 0x4B800000 -> [0, 0, 128, 75]
    let big = Matrix::new(vec![vec![16777217]]).unwrap();
    let bytes = big.bytes();
    assert_eq!(bytes[8..12].to_vec(), vec![0, 0, 128, 75]);
}

#[test]
fn equality_ignores_orientation() {
    // a transposed matrix equals the untransposed matrix with the same
    // logical content
    let mut matrix = Matrix::new(vec![vec![3, 2, 4], vec![4, 5, 6]]).unwrap();
    matrix.transpose();
    let direct = Matrix::new(vec![vec![3, 4], vec![2, 5], vec![4, 6]]).unwrap();
    assert_eq!(matrix, direct);
}
