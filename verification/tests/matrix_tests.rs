use resistor_grid::errors::GridError;
use resistor_grid::matrix::Matrix;
use resistor_grid::polynomial::Polynomial;

#[test]
fn matrix_test_fmt() {
    let m1: Matrix<i64> = Matrix::from_data(2, 2, vec![1, 2, 3, 4]);
    assert_eq!(m1.to_string(), "((1, 2)\n (3, 4))");
    assert!(m1.is_square());
}

#[test]
fn test_index() {
    let m1: Matrix<i64> = Matrix::from_data(2, 2, vec![1, 2, 3, 4]);
    assert_eq!(*m1.get(0, 0).unwrap(), 1i64);
    assert_eq!(*m1.get(0, 1).unwrap(), 2i64);
    assert_eq!(*m1.get(1, 0).unwrap(), 3i64);
    assert_eq!(*m1.get(1, 1).unwrap(), 4i64);
}

#[test]
fn matrix_test_add() {
    let m1: Matrix<i64> = Matrix::from_data(2, 2, vec![1, 2, 3, 4]);
    let m2: Matrix<i64> = Matrix::from_data(2, 2, vec![1, 2, 3, 4]);
    let m3 = m1.add(&m2).unwrap();
    assert_eq!(m3.to_string(), "((2, 4)\n (6, 8))");
}

#[test]
fn test_det() {
    let m1: Matrix<i64> = Matrix::from_data(2, 2, vec![1, 2, 3, 4]);
    assert_eq!(m1.det().unwrap(), -2);
}

#[test]
fn test_det_larger() {
    // an integer matrix whose Bareiss elimination divides exactly
    let m: Matrix<i64> = Matrix::from_data(3, 3, vec![2, 0, 1, 1, 3, 2, 0, 1, 4]);
    assert_eq!(m.det().unwrap(), 21);

    let one: Matrix<i64> = Matrix::from_data(1, 1, vec![9]);
    assert_eq!(one.det().unwrap(), 9);
}

#[test]
fn test_det_non_square() {
    let m: Matrix<i64> = Matrix::from_data(2, 3, vec![1, 2, 3, 4, 5, 6]);
    assert_eq!(m.det(), Err(GridError::NonSquareMatrix));
}

#[test]
fn test_det_zero_pivot() {
    // the first pivot is zero, so the second elimination step cannot divide
    let m: Matrix<i64> = Matrix::from_data(3, 3, vec![0, 1, 2, 3, 4, 5, 6, 7, 8]);
    assert_eq!(m.det(), Err(GridError::DivisionByZero));
}

#[test]
fn test_index_out_of_bounds() {
    let m1: Matrix<i64> = Matrix::from_data(2, 2, vec![1, 2, 3, 4]);
    assert_eq!(m1.get(2, 0), Err(GridError::IndexOutOfBounds));
    assert_eq!(m1.get(0, 2), Err(GridError::IndexOutOfBounds));
    let mut m2 = m1;
    assert_eq!(m2.set(5, 0, 7), Err(GridError::IndexOutOfBounds));
    assert_eq!(m2.to_string(), "((1, 2)\n (3, 4))");
}

#[test]
fn test_dimension_mismatch() {
    let m1: Matrix<i64> = Matrix::from_data(2, 2, vec![1, 2, 3, 4]);
    let m2: Matrix<i64> = Matrix::from_data(2, 3, vec![1, 2, 3, 4, 5, 6]);
    assert!(matches!(m1.add(&m2), Err(GridError::DimensionMismatch)));
    assert!(matches!(m1.sub(&m2), Err(GridError::DimensionMismatch)));
    let mut m3 = m1;
    assert_eq!(m3.add_assign(&m2), Err(GridError::DimensionMismatch));
}

#[test]
fn test_add_then_sub_restores() {
    let a: Matrix<i64> = Matrix::from_data(2, 2, vec![5, -1, 0, 7]);
    let b: Matrix<i64> = Matrix::from_data(2, 2, vec![2, 2, -3, 10]);
    let s = a.add(&b).unwrap();
    let back = s.sub(&b).unwrap();
    assert_eq!(back.to_string(), a.to_string());
}

#[test]
fn test_set_and_get() {
    let mut m: Matrix<i64> = Matrix::new(2, &0);
    m.set(0, 1, 42).unwrap();
    assert_eq!(*m.get(0, 1).unwrap(), 42);
    assert_eq!(*m.get(1, 1).unwrap(), 0);
}

#[test]
fn test_det_polynomial_entries() {
    // a diagonal matrix of polynomials: the determinant is the product
    let zero = Polynomial::<i64>::default;
    let x = || Polynomial::<i64>::new(vec![0, 1]);
    let m: Matrix<Polynomial<i64>> = Matrix::from_data(2, 2, vec![x(), zero(), zero(), x()]);
    let d = m.det().unwrap();
    assert_eq!(d.to_string(), "P[(1)x^2]");
}
