use linalg::fp::Fp;
use linalg::numeric::Numeric;
use linalg::vector::Vector;

fn s(x: i64) -> Fp {
    Fp::from_int(x)
}

fn v(xs: &[i64]) -> Vector<Fp> {
    let vals: Vec<Fp> = xs.iter().map(|&x| s(x)).collect();
    Vector::from(&vals)
}

#[test]
fn scale_properly_scales_a_vector() {
    let mut w = v(&[1, 2, 3]);
    w.scl(s(2));
    assert_eq!(w.values, vec![s(2), s(4), s(6)]);
}

#[test]
fn add_properly_adds_two_vectors() {
    let mut w = v(&[1, 2, 3]);
    let v2 = v(&[1, 2, 3]);
    w.add(&v2);
    assert_eq!(w.values, vec![s(2), s(4), s(6)]);
}

#[test]
fn sub_properly_subtracts_two_vectors() {
    let mut w = v(&[3, 6, 9]);
    let v2 = v(&[1, 2, 3]);
    w.sub(&v2);
    assert_eq!(w.values, vec![s(2), s(4), s(6)]);
}

#[test]
fn dot_product_returns_dot_product() {
    let a = v(&[0, 0]);
    let b = v(&[1, 1]);
    assert_eq!(a.dot(&b), s(0));
}

#[test]
fn dot_product_returns_dot_product_2() {
    let a = v(&[1, 1]);
    let b = v(&[1, 1]);
    assert_eq!(a.dot(&b), s(2));
}

#[test]
fn dot_product_returns_dot_product_3() {
    let a = v(&[-1, 6]);
    let b = v(&[3, 2]);
    assert_eq!(a.dot(&b), s(9));
}

#[test]
fn scalar_field_arithmetic_is_exact() {
    assert_eq!(s(2).add(s(3)), s(5));
    assert_eq!(s(2).sub(s(3)), s(-1));
    assert_eq!(s(7).mul(s(8)), s(56));
    assert_eq!(s(5).neg(), s(-5));
    assert_eq!(s(1).div(s(3)).mul(s(3)), s(1));
    assert_eq!(Fp::from_ratio(1, 2).add(Fp::from_ratio(1, 2)), s(1));
    assert!(s(0).is_zero());
    assert!(!s(10).is_zero());
    assert!(s(3).lt(&s(5)));
    assert!(!s(5).lt(&s(3)));
    assert_eq!(s(7).abs(), s(7));
    assert_eq!(Fp::zero(), s(0));
    assert_eq!(Fp::one(), s(1));
}
