use num_bigint::BigUint;
use ztcc::compute_ztcc_weight_spectrum::{
    calc_polynomial_from_weight, compute_ztcc_weight_spectrum, multiply_matrices,
    transfer_function,
};
use ztcc::poly_wrapper::{
    BigUintToWrapped, BigUintWrapper, PolyToWrapped, PolyWrapper, WrappedToPoly,
};
use ztcc::trellis::{generate_feedback_trellis, generate_transition_tables};
use ztcc::vec2d::{Fill, Vec2d};

fn poly(values: &[usize]) -> PolyWrapper {
    PolyWrapper::from_coeffs(&values.to_vec())
}

fn values(p: &PolyWrapper) -> Vec<BigUint> {
    let mut all: Vec<BigUint> = p.coeffs.iter().map(|c| c.0.clone()).collect();
    while all.last() == Some(&BigUint::from(0u32)) {
        all.pop();
    }
    all
}

fn expected(values: &[u64]) -> Vec<BigUint> {
    values.iter().map(|v| BigUint::from(*v)).collect()
}

#[test]
fn test_ndarray_addition() {}

#[test]
fn compute_ztcc_weight_spectrum_test_calc_polynomial_basic() {
    let polynomial = poly(&[0, 0, 1]);
    assert_eq!(values(&calc_polynomial_from_weight(2)), values(&polynomial));
    assert_eq!(calc_polynomial_from_weight(2).coeffs.len(), 3);
}

#[test]
fn test_wrapped_addition() {
    let poly_1 = poly(&[1, 3, 5]);
    let poly_2 = poly(&[1, 0, 1]);
    assert_eq!(expected(&[2, 3, 6]), values(&poly_1.add(poly_2)));
}

#[test]
fn test_wrapped_multiplication() {
    let poly_1 = poly(&[1, 3, 5]);
    let poly_2 = poly(&[1, 0, 1]);
    assert_eq!(expected(&[1, 3, 6, 3, 5]), values(&poly_1.mul(poly_2)));
}

#[test]
fn test_wrapped_matrix_multiplication() {
    let mat = vec![
        vec![poly(&[5, 3, 1]), poly(&[1, 0, 1])],
        vec![poly(&[1, 2]), poly(&[1])],
    ];
    let mat_2 = vec![
        vec![poly(&[5, 3, 1]), poly(&[1, 0, 1])],
        vec![poly(&[1, 2]), poly(&[1])],
    ];
    let res = multiply_matrices(&mat, &mat_2, 2);
    assert_eq!(values(&res[0][0]), expected(&[26, 32, 20, 8, 1]));
    assert_eq!(values(&res[0][1]), expected(&[6, 3, 7, 3, 1]));
    assert_eq!(values(&res[1][0]), expected(&[6, 15, 7, 2]));
    assert_eq!(values(&res[1][1]), expected(&[2, 2, 1, 2]));
}

#[test]
fn fill_repeats_the_value() {
    assert_eq!(Fill(7, 3), vec![7u16, 7, 7]);
    assert_eq!(Fill(0x1_0005, 2), vec![5u16, 5]);
    assert!(Fill(1, 0).is_empty());
}

#[test]
fn table_entries_are_found_by_row_and_column() {
    let mut table = Vec2d::new(vec![1, 2, 3, 4, 5, 6], 2, 3);
    assert_eq!(*table.index(1, 2), 6);
    assert_eq!(table.row(0), &[1, 2, 3]);
    *table.index_mut(1, 0) = 10;
    assert_eq!(table.vec, vec![1, 2, 3, 10, 5, 6]);
    assert_eq!(table.row(1), &[10, 5, 6]);
}

#[test]
fn coefficients_wrap_big_integers() {
    let a = BigUint::from(7u32).wrap();
    let b = BigUintWrapper::from_usize(6);
    assert_eq!(a.mul(b).0, BigUint::from(42u32));
    assert!(BigUintWrapper::zero().is_zero());
    assert!(BigUintWrapper::one().is_one());
    assert!(!BigUintWrapper::one().is_zero());
    let big = BigUint::from(u64::MAX).wrap();
    let twice = big.duplicate().add(big);
    assert_eq!(twice.0, BigUint::from(u64::MAX) * BigUint::from(2u32));
}

#[test]
fn polynomials_wrap_and_unwrap() {
    let p = vec![BigUintWrapper::from_usize(4), BigUintWrapper::from_usize(0)].wrap();
    assert!(!p.is_zero());
    assert!(poly(&[0, 0]).is_zero());
    assert!(PolyWrapper::zero().is_zero());
    assert_eq!(values(&PolyWrapper::one()), expected(&[1]));
    let mut q = poly(&[1, 1]);
    q.mul_assign(poly(&[1, 1]));
    q.add_assign(poly(&[0, 0, 0, 2]));
    assert_eq!(values(&q), expected(&[1, 2, 1, 2]));
    assert_eq!(q.unwrap().len(), 4);
}

#[test]
fn transfer_matrix_sums_the_edges() {
    let t = generate_transition_tables(3, &[3], 3).unwrap();
    let m = transfer_function(&t);
    // both edges out of state zero lead back to it, with the weights 0 and 2
    assert_eq!(values(&m[0][0]), expected(&[1, 0, 1]));
    assert_eq!(values(&m[1][1]), expected(&[0, 2]));
    assert!(m[0][1].is_zero());
}

#[test]
fn weight_enumerator_of_no_step_is_one() {
    let t = generate_feedback_trellis(7, &[107, 135, 133], 141).unwrap();
    let w = compute_ztcc_weight_spectrum(7, &[107, 135, 133], 141, 0, &t);
    assert_eq!(values(&w), expected(&[1]));
}

#[test]
fn weight_enumerator_of_the_smallest_encoder() {
    let t = generate_transition_tables(3, &[3], 3).unwrap();
    let w = compute_ztcc_weight_spectrum(3, &[3], 3, 4, &t);
    assert_eq!(values(&w), expected(&[1, 0, 4, 0, 6, 0, 4, 0, 1]));
}

#[test]
fn weight_enumerators_of_larger_encoders() {
    let t = generate_feedback_trellis(3, &[5], 7).unwrap();
    let w = compute_ztcc_weight_spectrum(3, &[5], 7, 6, &t);
    assert_eq!(values(&w), expected(&[1, 0, 0, 0, 0, 4, 5, 4, 1, 0, 1]));
    let t = generate_feedback_trellis(4, &[15, 17], 13).unwrap();
    let w = compute_ztcc_weight_spectrum(4, &[15, 17], 13, 5, &t);
    assert_eq!(values(&w), expected(&[1, 0, 0, 0, 4, 13, 23, 25, 20, 23, 13, 3, 3]));
    let t = generate_feedback_trellis(7, &[107, 135, 133], 141).unwrap();
    let w = compute_ztcc_weight_spectrum(7, &[107, 135, 133], 141, 4, &t);
    assert_eq!(values(&w), expected(&[1, 0, 0, 0, 0, 0, 9, 20, 13, 8, 6, 4, 2, 0, 1]));
}
