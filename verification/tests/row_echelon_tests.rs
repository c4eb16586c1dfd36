use linalg::error::MatrixError;
use linalg::fp::Fp;
use linalg::matrix::Matrix;

fn s(x: i64) -> Fp {
    Fp::from_int(x)
}

fn q(n: i64, d: i64) -> Fp {
    Fp::from_ratio(n, d)
}

fn m(rows: &[&[i64]]) -> Matrix<Fp> {
    Matrix::from(rows.iter().map(|r| r.iter().map(|&x| s(x)).collect()).collect()).unwrap()
}

#[test]
fn row_echelon_works() {
    let r = m(&[&[1, 0, 0], &[0, 1, 0], &[0, 0, 1]]).row_echelon();
    let expected = m(&[&[1, 0, 0], &[0, 1, 0], &[0, 0, 1]]);
    assert_eq!(r, expected);
}

#[test]
fn reduced_row_echelon_again() {
    let mut r = m(&[&[1, 2, 3], &[4, 5, 6], &[7, 8, 9]]);
    r = r.reduced_row_echelon();
    let expected = m(&[&[1, 0, -1], &[0, 1, 2], &[0, 0, 0]]);
    assert_eq!(r, expected);
}

#[test]
fn reduced_row_echelon_and_row_echelon_give_different_results() {
    let mut rr = m(&[&[2, 0, 0], &[0, 2, 0], &[0, 0, 2]]);
    let r = rr.clone().row_echelon();
    rr = rr.reduced_row_echelon();
    let expected = m(&[&[1, 0, 0], &[0, 1, 0], &[0, 0, 1]]);
    assert_eq!(rr, expected);
    let expected = m(&[&[2, 0, 0], &[0, 2, 0], &[0, 0, 2]]);
    assert_eq!(r, expected);
}

#[test]
fn row_echelon_works_2() {
    let mut r = m(&[&[1, 2], &[3, 4]]);
    r = r.reduced_row_echelon();
    let expected = m(&[&[1, 0], &[0, 1]]);
    assert_eq!(r, expected);
}

#[test]
fn row_echelon_works_3() {
    let r = m(&[&[1, 2], &[2, 4]]).row_echelon();
    let expected = m(&[&[1, 2], &[0, 0]]);
    assert_eq!(r, expected);
}

#[test]
fn row_echelon_works_4() {
    let a = Matrix::from(vec![
        vec![s(8), s(5), s(-2), s(4), s(28)],
        vec![s(4), q(5, 2), s(20), s(4), s(-4)],
        vec![s(8), s(5), s(1), s(4), s(17)],
    ])
    .unwrap()
    .reduced_row_echelon();
    let expected = Matrix::from(vec![
        vec![s(1), q(5, 8), s(0), s(0), q(-73, 6)],
        vec![s(0), s(0), s(1), s(0), q(-11, 3)],
        vec![s(0), s(0), s(0), s(1), q(59, 2)],
    ])
    .unwrap();
    assert_eq!(a, expected);
}

#[test]
fn reduced_row_echelon_is_idempotent_on_samples() {
    for sample in [
        m(&[&[1, 2, 3], &[4, 5, 6], &[7, 8, 9]]),
        m(&[&[0, 0], &[0, 0]]),
        m(&[&[8, 5, -2], &[4, 7, 20], &[7, 6, 1]]),
        m(&[&[1, 2, 0, 0], &[2, 4, 0, 0], &[-1, 2, 1, 1]]),
    ] {
        let once = sample.reduced_row_echelon();
        let twice = once.clone().reduced_row_echelon();
        assert_eq!(twice, once);
    }
}

#[test]
fn divide_row_divides_and_refuses_zero() {
    let mut a = m(&[&[2, 4], &[6, 8]]);
    assert_eq!(a.divide_row(0, s(2)), Ok(()));
    assert_eq!(a, m(&[&[1, 2], &[6, 8]]));
    assert_eq!(a.divide_row(1, s(0)), Err(MatrixError::DivisionByZero));
    assert_eq!(a, m(&[&[1, 2], &[6, 8]]));
}

#[test]
fn scale_row_scales_and_refuses_zero_like_a_divisor() {
    let mut a = m(&[&[2, 4], &[6, 8]]);
    assert_eq!(a.scale_row(1, s(2)), Ok(()));
    assert_eq!(a, m(&[&[2, 4], &[12, 16]]));
    assert_eq!(a.scale_row(0, s(0)), Err(MatrixError::DivisionByZero));
    assert_eq!(a, m(&[&[2, 4], &[12, 16]]));
    assert_eq!(
        MatrixError::DivisionByZero.message(),
        "Division by zero in row operation"
    );
}

#[test]
fn subtract_multiple_of_row_mutates_the_target() {
    let mut a = m(&[&[1, 2], &[3, 4]]);
    a.subtract_multiple_of_row(0, 1, s(3));
    assert_eq!(a, m(&[&[1, 2], &[0, -2]]));
}
