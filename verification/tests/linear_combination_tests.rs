use linalg::fp::Fp;
use linalg::linear_combinations::linear_combination;
use linalg::vector::Vector;

fn s(x: i64) -> Fp {
    Fp::from_int(x)
}

fn v(xs: &[i64]) -> Vector<Fp> {
    let vals: Vec<Fp> = xs.iter().map(|&x| s(x)).collect();
    Vector::from(&vals)
}

#[test]
fn linear_combination_works() {
    let v1 = v(&[1, 2, 3]);
    let v2 = v(&[4, 5, 6]);
    let v3 = v(&[7, 8, 9]);
    let result = linear_combination(&[v1, v2, v3], &[s(1), s(2), s(3)]);
    assert_eq!(result.values, vec![s(30), s(36), s(42)]);
}

#[test]
fn linear_combination_with_subject_example() {
    let e1 = v(&[1, 0, 0]);
    let e2 = v(&[0, 1, 0]);
    let e3 = v(&[0, 0, 1]);
    let result = linear_combination(&[e1, e2, e3], &[s(10), s(-2), Fp::from_ratio(1, 2)]);
    assert_eq!(result.values, vec![s(10), s(-2), Fp::from_ratio(1, 2)]);
}

#[test]
fn linear_combination_with_second_subject_example() {
    let v1 = v(&[1, 2, 3]);
    let v2 = v(&[0, 10, -100]);
    let result = linear_combination(&[v1, v2], &[s(10), s(-2)]);
    assert_eq!(result.values, vec![s(10), s(0), s(230)]);
}
