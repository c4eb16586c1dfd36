use linalg::fp::Fp;
use linalg::matrix::Matrix;

fn s(x: i64) -> Fp {
    Fp::from_int(x)
}

fn m(rows: &[&[i64]]) -> Matrix<Fp> {
    Matrix::from(rows.iter().map(|r| r.iter().map(|&x| s(x)).collect()).collect()).unwrap()
}

#[test]
fn test_rank() {
    let a = m(&[&[1, 2, 3], &[4, 5, 6], &[7, 8, 9]]);
    assert_eq!(a.rank(), 2);
}

#[test]
fn test_rank_subject_1() {
    let a = m(&[&[1, 0, 0], &[0, 1, 0], &[0, 0, 1]]);
    assert_eq!(a.rank(), 3);
}

#[test]
fn test_rank_subject_2() {
    let a = m(&[&[1, 2, 0, 0], &[2, 4, 0, 0], &[-1, 2, 1, 1]]);
    assert_eq!(a.rank(), 2);
}

#[test]
fn test_rank_subject_3() {
    let a = m(&[&[8, 5, -2], &[4, 7, 20], &[7, 6, 1], &[21, 18, 7]]);
    assert_eq!(a.rank(), 3);
}

#[test]
fn rank_drops_below_row_count_on_a_zero_row() {
    let a = m(&[&[1, 2], &[0, 0]]);
    assert_eq!(a.rank(), 1);
    let b = m(&[&[0, 0, 0], &[0, 0, 0], &[0, 0, 0]]);
    assert_eq!(b.rank(), 0);
}

#[test]
fn rank_drops_on_proportional_rows() {
    let a = m(&[&[1, -1], &[-1, 1]]);
    assert_eq!(a.rank(), 1);
}
