use linalg::cross_product::cross_product;
use linalg::fp::Fp;
use linalg::vector::Vector;

fn s(x: i64) -> Fp {
    Fp::from_int(x)
}

fn v(xs: &[i64]) -> Vector<Fp> {
    let vals: Vec<Fp> = xs.iter().map(|&x| s(x)).collect();
    Vector::from(&vals)
}

#[test]
fn cross_product_works() {
    let v1 = v(&[0, 0, 1]);
    let v2 = v(&[1, 0, 0]);
    let result = cross_product(&v1, &v2);
    assert_eq!(result, v(&[0, 1, 0]));
}

#[test]
fn cross_product_works_2() {
    let v1 = v(&[1, 2, 3]);
    let v2 = v(&[4, 5, 6]);
    let result = cross_product(&v1, &v2);
    assert_eq!(result, v(&[-3, 6, -3]));
}

#[test]
fn cross_product_works_3() {
    let v1 = v(&[4, 2, -3]);
    let v2 = v(&[-2, -5, 16]);
    let result = cross_product(&v1, &v2);
    assert_eq!(result, v(&[17, -58, -16]));
}

#[test]
fn cross_product_method_matches_free_function() {
    let v1 = v(&[1, 2, 3]);
    let v2 = v(&[4, 5, 6]);
    assert_eq!(v1.cross_product(&v2), cross_product(&v1, &v2));
}
