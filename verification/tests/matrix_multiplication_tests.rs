use linalg::fp::Fp;
use linalg::matrix::Matrix;
use linalg::vector::Vector;

fn s(x: i64) -> Fp {
    Fp::from_int(x)
}

fn m(rows: &[&[i64]]) -> Matrix<Fp> {
    Matrix::from(rows.iter().map(|r| r.iter().map(|&x| s(x)).collect()).collect()).unwrap()
}

fn v(xs: &[i64]) -> Vector<Fp> {
    let vals: Vec<Fp> = xs.iter().map(|&x| s(x)).collect();
    Vector::from(&vals)
}

#[test]
fn matrix_vector_multiplication_works() {
    let a = m(&[&[1, 2, 3], &[4, 5, 6], &[7, 8, 9]]);
    let x = v(&[1, 2, 3]);
    let result = a.mul_vec(x);
    assert_eq!(result, v(&[14, 32, 50]));
}

#[test]
fn matrix_vector_multiplication_works_1() {
    let a = m(&[&[1, 0], &[0, 1]]);
    let x = v(&[4, 2]);
    let result = a.mul_vec(x);
    assert_eq!(result, v(&[4, 2]));
}

#[test]
fn matrix_vector_multiplication_works_2() {
    let a = m(&[&[2, 0], &[0, 2]]);
    let x = v(&[4, 2]);
    let result = a.mul_vec(x);
    assert_eq!(result, v(&[8, 4]));
}

#[test]
fn matrix_vector_multiplication_works_3() {
    let a = m(&[&[2, -2], &[-2, 2]]);
    let x = v(&[4, 2]);
    let result = a.mul_vec(x);
    assert_eq!(result, v(&[4, -4]));
}

#[test]
fn matrix_multiplication_works_1() {
    let m1 = m(&[&[1, 2], &[3, 4]]);
    let m2 = m(&[&[1, 0], &[0, 1]]);
    let result = m1.mul_mat(m2);
    assert_eq!(result, m(&[&[1, 2], &[3, 4]]));
}

#[test]
fn matrix_multiplication_works_2() {
    let m1 = m(&[&[1, 0], &[0, 1]]);
    let m2 = m(&[&[1, 0], &[0, 1]]);
    let result = m1.mul_mat(m2);
    assert_eq!(result, m(&[&[1, 0], &[0, 1]]));
}

#[test]
fn matrix_multiplication_works_3() {
    let m1 = m(&[&[3, -5], &[6, 8]]);
    let m2 = m(&[&[2, 1], &[4, 2]]);
    let result = m1.mul_mat(m2);
    assert_eq!(result, m(&[&[-14, -7], &[44, 22]]));
}
