use linalg::error::MatrixError;
use linalg::fp::Fp;
use linalg::matrix::Matrix;

fn s(x: i64) -> Fp {
    Fp::from_int(x)
}

fn q(n: i64, d: i64) -> Fp {
    Fp::from_ratio(n, d)
}

fn m(rows: &[&[i64]]) -> Matrix<Fp> {
    Matrix::from(rows.iter().map(|r| r.iter().map(|&x| s(x)).collect()).collect()).unwrap()
}

#[test]
fn test_inverse() {
    let a = m(&[&[1, 2, 3], &[4, 5, 6], &[7, 8, 9]]);
    assert_eq!(
        a.inverse().unwrap_err().message(),
        "Matrix is not invertible"
    );
}

#[test]
fn test_simple_inverse() {
    let a = m(&[&[1, 0], &[0, 1]]);
    let inv = a.inverse().unwrap();
    assert_eq!(inv.values, vec![vec![s(1), s(0)], vec![s(0), s(1)]]);
}

#[test]
fn inverse_two_matrix() {
    let a = m(&[&[2, 0, 0], &[0, 2, 0], &[0, 0, 2]]);
    let inv = a.inverse().unwrap();
    assert_eq!(
        inv.values,
        vec![
            vec![q(1, 2), s(0), s(0)],
            vec![s(0), q(1, 2), s(0)],
            vec![s(0), s(0), q(1, 2)]
        ]
    );
}

#[test]
fn complicated_inverse() {
    let a = m(&[&[8, 5, -2], &[4, 7, 20], &[7, 6, 1]]);
    let inv = a.inverse().unwrap();
    assert_eq!(
        inv.values,
        vec![
            vec![q(113, 174), q(17, 174), q(-114, 174)],
            vec![q(-136, 174), q(-22, 174), q(168, 174)],
            vec![q(25, 174), q(13, 174), q(-36, 174)]
        ]
    );
}

#[test]
fn inverse_requires_a_square_matrix() {
    let a = m(&[&[1, 2, 3], &[4, 5, 6]]);
    assert_eq!(a.inverse().unwrap_err(), MatrixError::NotSquare);
    assert_eq!(
        MatrixError::NotSquare.message(),
        "Matrix must be square to have an inverse"
    );
}

#[test]
fn inverse_fails_on_a_zero_row() {
    let a = m(&[&[1, 2], &[0, 0]]);
    assert_eq!(a.inverse().unwrap_err(), MatrixError::NotInvertible);
}

#[test]
fn inverse_times_the_matrix_gives_identity() {
    let a = m(&[&[8, 5, -2], &[4, 7, 20], &[7, 6, 1]]);
    let inv = a.inverse().unwrap();
    let product = inv.mul_mat(a.clone());
    assert_eq!(product, m(&[&[1, 0, 0], &[0, 1, 0], &[0, 0, 1]]));
    let other_way = a.mul_mat(inv);
    assert_eq!(other_way, m(&[&[1, 0, 0], &[0, 1, 0], &[0, 0, 1]]));
}
