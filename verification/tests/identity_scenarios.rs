use linalg::error::MatrixError;
use linalg::fp::Fp;
use linalg::matrix::Matrix;

fn s(x: i64) -> Fp {
    Fp::from_int(x)
}

fn m(rows: &[&[i64]]) -> Matrix<Fp> {
    Matrix::from(rows.iter().map(|r| r.iter().map(|&x| s(x)).collect()).collect()).unwrap()
}

#[test]
fn identity_has_unit_determinant_full_rank_and_is_its_own_inverse() {
    let idm = m(&[&[1, 0, 0, 0], &[0, 1, 0, 0], &[0, 0, 1, 0], &[0, 0, 0, 1]]);
    assert_eq!(idm.determinant().unwrap(), s(1));
    assert_eq!(idm.rank(), 4);
    assert_eq!(idm.inverse().unwrap(), idm);
}

#[test]
fn singular_two_by_two_scenario() {
    let a = m(&[&[1, -1], &[-1, 1]]);
    assert_eq!(a.determinant().unwrap(), s(0));
    assert_eq!(a.rank(), 1);
    assert_eq!(a.inverse().unwrap_err(), MatrixError::NotInvertible);
}
