use linalg::error::MatrixError;
use linalg::fp::Fp;
use linalg::matrix::Matrix;

fn s(x: i64) -> Fp {
    Fp::from_int(x)
}

fn m(rows: &[&[i64]]) -> Matrix<Fp> {
    Matrix::from(rows.iter().map(|r| r.iter().map(|&x| s(x)).collect()).collect()).unwrap()
}

#[test]
fn scale_properly_scales_a_matrix() {
    let mut v = m(&[&[1, 2, 3], &[2, 4, 6]]);
    v.scl(s(2));
    assert_eq!(v, m(&[&[2, 4, 6], &[4, 8, 12]]));
}

#[test]
fn add_properly_adds_a_matrix() {
    let mut v = m(&[&[1, 2, 3], &[2, 4, 6]]);
    let second = m(&[&[1, 2, 3], &[2, 4, 6]]);
    v.add(&second);
    assert_eq!(v, m(&[&[2, 4, 6], &[4, 8, 12]]));
}

#[test]
fn sub_properly_subtracts_a_matrix() {
    let mut v = m(&[&[10, 10, 10], &[2, 4, 6]]);
    let second = m(&[&[1, 2, 3], &[2, 4, 6]]);
    v.sub(&second);
    assert_eq!(v, m(&[&[9, 8, 7], &[0, 0, 0]]));
}

#[test]
fn from_refuses_ragged_rows() {
    let r = Matrix::from(vec![vec![s(1), s(2)], vec![s(3)]]);
    assert_eq!(r.unwrap_err(), MatrixError::RaggedRows);
    assert_eq!(
        MatrixError::RaggedRows.message(),
        "Matrix rows must all have the same length"
    );
}

#[test]
fn shape_queries_report_rows_and_columns() {
    let a = m(&[&[1, 2, 3], &[4, 5, 6]]);
    assert_eq!(a.rows(), 2);
    assert_eq!(a.cols(), 3);
    assert!(!a.is_square());
    assert!(m(&[&[1, 2], &[3, 4]]).is_square());
}

#[test]
fn empty_matrix_reduces_to_itself() {
    let e: Matrix<Fp> = Matrix::from(vec![]).unwrap();
    assert_eq!(e.rows(), 0);
    assert_eq!(e.cols(), 0);
    assert!(e.is_square());
    assert_eq!(e.rank(), 0);
    assert_eq!(e.clone().row_echelon(), Matrix::from(vec![]).unwrap());
    assert_eq!(e.clone().reduced_row_echelon(), Matrix::from(vec![]).unwrap());
    assert_eq!(e.determinant().unwrap(), s(1));
}
