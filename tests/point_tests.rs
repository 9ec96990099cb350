use std::cmp::Ordering;
use zspace::point::{ZOp, ZPoint};
use zspace::ZDim;

fn pt(v: &[i32]) -> ZPoint {
    ZPoint::from(v.to_vec())
}

#[test]
fn zdim_test_ndim() {
    let b = vec![1, 2, 3];
    assert_eq!(ZDim::ndim(&b), 3);
    assert_eq!(b[0], 1);
}

#[test]
fn test_macro() {
    assert_eq!(ZPoint::from(vec![]), ZPoint::zeros(0));
    assert_eq!(pt(&[2, -3]).to_vec(), vec![2, -3]);
}

#[test]
fn mod_test_display() {
    let a = pt(&[1, 2, 3]);
    assert_eq!(a.to_string(), "z[1, 2, 3]");
}

#[test]
fn display_negative_and_empty() {
    assert_eq!(pt(&[-10, 0, 2147483647, -2147483648]).to_string(), "z[-10, 0, 2147483647, -2147483648]");
    assert_eq!(ZPoint::scalar().to_string(), "z[]");
    assert_eq!(pt(&[7]).to_string(), "z[7]");
}

#[test]
fn test_scalar_ordering() {
    let scalar = ZPoint::from(vec![]);
    assert_eq!(scalar < scalar, false);
    assert_eq!(scalar <= scalar, true);
    assert_eq!(scalar > scalar, false);
    assert_eq!(scalar >= scalar, true);
    assert_eq!(scalar == scalar, true);
    assert_eq!(scalar != scalar, false);
}

#[test]
fn test_partial_cmp() {
    let a = pt(&[0, 1, 2]);
    let b = pt(&[1, 0, 2]);
    assert!(a.partial_cmp(&b).is_none());
}

#[test]
fn test_partial() {
    let z = ZPoint::zeros(3);
    assert_eq!(z < z, false);
    assert_eq!(z <= z, true);
    assert_eq!(z > z, false);
    assert_eq!(z >= z, true);
    assert_eq!(z == z, true);
    assert_eq!(z != z, false);

    let a = pt(&[1, 2, 3]);
    assert_eq!(z < a, true);
    assert_eq!(z <= a, true);
    assert_eq!(z > a, false);
    assert_eq!(z >= a, false);
    assert_eq!(z != a, true);
    assert_eq!(z == a, false);

    let b = pt(&[0, 3, 4]);
    assert_eq!(a < b, false);
    assert_eq!(a <= b, false);
    assert_eq!(a > b, false);
    assert_eq!(a >= b, false);
    assert_eq!(a != b, true);
    assert_eq!(a == b, false);
}

#[test]
fn partial_order_exactly_one_case() {
    let a = pt(&[1, 2, 3]);
    assert_eq!(a.partial_cmp(&pt(&[1, 2, 4])), Some(Ordering::Less));
    assert_eq!(a.partial_cmp(&pt(&[1, 2, 3])), Some(Ordering::Equal));
    assert_eq!(a.partial_cmp(&pt(&[0, 2, 3])), Some(Ordering::Greater));
    assert_eq!(a.partial_cmp(&pt(&[2, 1, 3])), None);
    let c = pt(&[2, 1, 3]);
    assert!(!(a < c) && !(a > c) && !(a == c) && !(a <= c) && !(a >= c));
}

#[test]
fn mod_test_scalar() {
    let p = ZPoint::scalar();
    assert_eq!(p.to_vec(), Vec::<i32>::new());
}

#[test]
fn from_test_from_vec() {
    let expected = vec![1, 2, 3];
    assert_eq!(ZPoint::from(vec![1, 2, 3]).to_vec(), expected);
    assert_eq!(ZPoint::from(vec![1, 2, 3].clone()).to_vec(), expected);
}

#[test]
fn from_sequence_round_trip() {
    let p = pt(&[4, -5, 6, 0]);
    assert_eq!(ZPoint::from(p.to_vec()), p);
    let s = ZPoint::scalar();
    assert_eq!(ZPoint::from(s.to_vec()), s);
}

#[test]
fn test_clone() {
    let point1 = pt(&[1, 2, 3]);
    let point2 = point1.clone();
    assert_eq!(point1, point2);
}

#[test]
fn test_zeros() {
    let point = ZPoint::zeros(3);
    assert_eq!(point.ndim(), 3);
    assert_eq!(point, pt(&[0, 0, 0]));
}

#[test]
fn test_zeros_like() {
    let point1 = pt(&[1, 2, 3]);
    let point2 = ZPoint::zeros_like(&point1);
    assert_eq!(point2.ndim(), 3);
    assert_eq!(point2, pt(&[0, 0, 0]));
}

#[test]
fn test_ones() {
    let point = ZPoint::ones(3);
    assert_eq!(point.ndim(), 3);
    assert_eq!(point, pt(&[1, 1, 1]));
}

#[test]
fn test_ones_like() {
    let point1 = pt(&[1, 2, 3]);
    let point2 = ZPoint::ones_like(&point1);
    assert_eq!(point2.ndim(), 3);
    assert_eq!(point2, pt(&[1, 1, 1]));
}

#[test]
fn test_full() {
    let point = ZPoint::full(3, 5);
    assert_eq!(point.ndim(), 3);
    assert_eq!(point, pt(&[5, 5, 5]));
}

#[test]
fn test_full_like() {
    let point1 = pt(&[1, 2, 3]);
    let point2 = ZPoint::full_like(&point1, 5);
    assert_eq!(point2.ndim(), 3);
    assert_eq!(point2, pt(&[5, 5, 5]));
}

#[test]
fn mod_test_from_vec() {
    let point = pt(&[1, 2, 3]);
    assert_eq!(point.ndim(), 3);
    assert_eq!(point.get(0), 1);
    assert_eq!(point.get(1), 2);
    assert_eq!(point.get(2), 3);
}

#[test]
fn fill_identities() {
    for n in [0usize, 1, 4] {
        assert_eq!(ZPoint::zeros(n).add(&ZPoint::ones(n)), ZPoint::full(n, 1));
        assert_eq!(ZPoint::ones(n).mul(&ZPoint::full(n, -7)), ZPoint::full(n, -7));
    }
}

#[test]
fn mod_test_add() {
    let point1 = pt(&[1, 2, 3]);
    let point2 = pt(&[4, 5, 6]);
    assert_eq!(&point1 + &point2, pt(&[5, 7, 9]));

    assert_eq!(point1.combine_scalar(1, ZOp::Add), pt(&[2, 3, 4]));
    assert_eq!(ZPoint::scalar_combine(1, &point1, ZOp::Add), pt(&[2, 3, 4]));

    assert_eq!(pt(&[1, 2, 3]).add(&ZPoint::from(vec![1, 2, 3])), pt(&[2, 4, 6]));
    assert_eq!(ZPoint::from(vec![1, 2, 3]).add(&pt(&[1, 2, 3])), pt(&[2, 4, 6]));
}

#[test]
fn test_sub() {
    let point1 = pt(&[1, 2, 3]);
    let point2 = pt(&[4, 5, 6]);
    assert_eq!(&point1 - &point2, pt(&[-3, -3, -3]));

    assert_eq!(point1.combine_scalar(1, ZOp::Sub), pt(&[0, 1, 2]));
    assert_eq!(ZPoint::scalar_combine(1, &point1, ZOp::Sub), pt(&[0, -1, -2]));

    assert_eq!(point1.sub(&ZPoint::from(vec![1, 2, 3])), pt(&[0, 0, 0]));
    assert_eq!(ZPoint::from(vec![1, 2, 3]).sub(&point1), pt(&[0, 0, 0]));
}

#[test]
fn test_mul() {
    let point1 = pt(&[1, 2, 3]);
    let point2 = pt(&[4, 5, 6]);
    assert_eq!(&point1 * &point2, pt(&[4, 10, 18]));

    assert_eq!(point1.combine_scalar(2, ZOp::Mul), pt(&[2, 4, 6]));
    assert_eq!(ZPoint::scalar_combine(2, &point1, ZOp::Mul), pt(&[2, 4, 6]));

    assert_eq!(point1.mul(&ZPoint::from(vec![1, 2, 3])), pt(&[1, 4, 9]));
    assert_eq!(ZPoint::from(vec![1, 2, 3]).mul(&point1), pt(&[1, 4, 9]));
}

#[test]
fn test_div() {
    let point1 = pt(&[1, 2, 3]);
    let point2 = pt(&[4, 5, 6]);
    assert_eq!(&point1 / &point2, pt(&[0, 0, 0]));

    assert_eq!(point1.combine_scalar(2, ZOp::Div), pt(&[0, 1, 1]));
    assert_eq!(ZPoint::scalar_combine(2, &point1, ZOp::Div), pt(&[2, 1, 0]));

    assert_eq!(point1.div(&ZPoint::from(vec![1, 2, 3])), pt(&[1, 1, 1]));
    assert_eq!(ZPoint::from(vec![1, 2, 3]).div(&point1), pt(&[1, 1, 1]));
}

#[test]
fn test_rem() {
    let point1 = pt(&[1, 2, 3]);
    let point2 = pt(&[4, 5, 6]);
    assert_eq!(&point1 % &point2, pt(&[1, 2, 3]));

    assert_eq!(point1.combine_scalar(2, ZOp::Rem), pt(&[1, 0, 1]));
    assert_eq!(ZPoint::scalar_combine(2, &point1, ZOp::Rem), pt(&[0, 0, 2]));

    assert_eq!(point1.rem(&ZPoint::from(vec![1, 2, 3])), pt(&[0, 0, 0]));
    assert_eq!(ZPoint::from(vec![1, 2, 3]).rem(&point1), pt(&[0, 0, 0]));
}

#[test]
fn division_truncates_toward_zero() {
    let a = pt(&[-7, 7, -7, 7]);
    let b = pt(&[2, -2, -2, 2]);
    assert_eq!(a.div(&b), pt(&[-3, -3, 3, 3]));
    assert_eq!(a.rem(&b), pt(&[-1, 1, -1, 1]));
}

#[test]
fn test_neg() {
    let point1 = pt(&[1, 2, 3]);
    let point2 = point1.neg();
    assert_eq!(point2, pt(&[-1, -2, -3]));
}
