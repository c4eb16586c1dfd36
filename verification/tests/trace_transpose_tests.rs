use linalg::fp::Fp;
use linalg::matrix::Matrix;

fn s(x: i64) -> Fp {
    Fp::from_int(x)
}

fn m(rows: &[&[i64]]) -> Matrix<Fp> {
    Matrix::from(rows.iter().map(|r| r.iter().map(|&x| s(x)).collect()).collect()).unwrap()
}

#[test]
fn trace_works() {
    let a = m(&[&[1, 2, 3], &[4, 5, 6], &[7, 8, 9]]);
    assert_eq!(a.trace(), s(15));
}

#[test]
fn trace_works_2() {
    let a = m(&[&[2, -5, 0], &[4, 3, 7], &[-2, 3, 4]]);
    assert_eq!(a.trace(), s(9));
}

#[test]
fn transpose_works() {
    let a = m(&[&[1, 2, 3], &[4, 5, 6], &[7, 8, 9]]);
    let expected = m(&[&[1, 4, 7], &[2, 5, 8], &[3, 6, 9]]);
    assert_eq!(a.transpose(), expected);
}
