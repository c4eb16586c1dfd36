use linalg::error::MatrixError;
use linalg::fp::Fp;
use linalg::matrix::Matrix;

fn s(x: i64) -> Fp {
    Fp::from_int(x)
}

fn m(rows: &[&[i64]]) -> Matrix<Fp> {
    Matrix::from(rows.iter().map(|r| r.iter().map(|&x| s(x)).collect()).collect()).unwrap()
}

#[test]
fn determinant_works() {
    let a = m(&[&[1, 0, 0], &[0, 1, 0], &[0, 0, 1]]);
    assert_eq!(a.determinant().unwrap(), s(1));
}

#[test]
fn determinant_works_2() {
    let a = m(&[&[1, -1], &[-1, 1]]);
    assert_eq!(a.determinant().unwrap(), s(0));
}

#[test]
fn determinant_works_3() {
    let a = m(&[&[2, 0, 0], &[0, 2, 0], &[0, 0, 2]]);
    assert_eq!(a.determinant().unwrap(), s(8));
}

#[test]
fn determinant_of_general_matrix() {
    let a = m(&[&[8, 5, -2], &[4, 7, 20], &[7, 6, 1]]);
    assert_eq!(a.determinant().unwrap(), s(-174));
}

#[test]
fn determinant_requires_a_square_matrix() {
    let a = m(&[&[1, 2, 3], &[4, 5, 6]]);
    assert_eq!(a.determinant().unwrap_err(), MatrixError::NotSquare);
}
