use fhe_ckks::ntt::NttPlan;
use fhe_ckks::poly::{Domain, Poly};
use fhe_ckks::MathError;

const P: u64 = 998_244_353;
const N: usize = 8;

fn coeff_poly(coeffs: Vec<u64>) -> Poly {
    Poly { coeffs, modulus: P, domain: Domain::Coefficient }
}

#[test]
fn test_zero_poly() {
    let p = Poly::zero(N, P);
    assert_eq!(p.coeffs, vec![0u64; N]);
    assert_eq!(p.domain, Domain::Coefficient);
}

#[test]
fn test_poly_add() {
    let a = coeff_poly(vec![1, 2, 3, 0, 0, 0, 0, 0]);
    let b = coeff_poly(vec![P - 1, 0, 1, 0, 0, 0, 0, 0]);
    let c = a.add(&b);
    assert_eq!(c.coeffs[0], 0);
    assert_eq!(c.coeffs[1], 2);
    assert_eq!(c.coeffs[2], 4);
}

#[test]
fn test_poly_mul_schoolbook_vs_ntt() {
    let plan = NttPlan::new(P, N).unwrap();
    let a = coeff_poly(vec![1, 1, 0, 0, 0, 0, 0, 0]);
    let b = coeff_poly(vec![1, 1, 0, 0, 0, 0, 0, 0]);
    let c = a.mul(&b, &plan).unwrap();
    assert_eq!(c.coeffs[0], 1);
    assert_eq!(c.coeffs[1], 2);
    assert_eq!(c.coeffs[2], 1);
}

// ---- further cases ----

#[test]
fn len_and_is_empty() {
    let p = Poly::zero(4, 17);
    assert_eq!(p.len(), 4);
    assert!(!p.is_empty());
    let e = Poly { coeffs: vec![], modulus: 17, domain: Domain::Coefficient };
    assert!(e.is_empty());
}

#[test]
fn sub_wraps_modulo_q() {
    let a = coeff_poly(vec![1, 5, 0, 0, 0, 0, 0, 0]);
    let b = coeff_poly(vec![2, 5, 1, 0, 0, 0, 0, 0]);
    let c = a.sub(&b);
    assert_eq!(c.coeffs, vec![P - 1, 0, P - 1, 0, 0, 0, 0, 0]);
}

#[test]
fn negate_maps_zero_to_zero() {
    let a = coeff_poly(vec![0, 1, P - 1, 5, 0, 0, 0, 0]);
    let c = a.negate();
    assert_eq!(c.coeffs, vec![0, P - 1, 1, P - 5, 0, 0, 0, 0]);
    assert_eq!(a.add(&c).coeffs, vec![0u64; 8]);
}

#[test]
fn mul_wraps_negacyclically() {
    let plan = NttPlan::new(P, N).unwrap();
    // x^7 * x = x^8 = -1
    let a = coeff_poly(vec![0, 0, 0, 0, 0, 0, 0, 1]);
    let b = coeff_poly(vec![0, 1, 0, 0, 0, 0, 0, 0]);
    let c = a.mul(&b, &plan).unwrap();
    assert_eq!(c.coeffs, vec![P - 1, 0, 0, 0, 0, 0, 0, 0]);
    assert_eq!(c.domain, Domain::Coefficient);
}

#[test]
fn ntt_forward_then_inverse_restores() {
    let plan = NttPlan::new(P, N).unwrap();
    let initial = vec![3u64, 1, 4, 1, 5, 9, 2, 6];
    let mut a = coeff_poly(initial.clone());
    a.ntt_forward(&plan).unwrap();
    assert_eq!(a.domain, Domain::Ntt);
    a.ntt_forward(&plan).unwrap();
    a.ntt_inverse(&plan).unwrap();
    assert_eq!(a.domain, Domain::Coefficient);
    assert_eq!(a.coeffs, initial);
}

#[test]
fn mul_in_ntt_domain_is_pointwise() {
    let plan = NttPlan::new(P, N).unwrap();
    let mut a = coeff_poly(vec![1, 2, 0, 0, 0, 0, 0, 0]);
    let mut b = coeff_poly(vec![3, 0, 1, 0, 0, 0, 0, 0]);
    let expected = a.mul(&b, &plan).unwrap();
    a.ntt_forward(&plan).unwrap();
    b.ntt_forward(&plan).unwrap();
    let mut c = a.mul(&b, &plan).unwrap();
    assert_eq!(c.domain, Domain::Ntt);
    c.ntt_inverse(&plan).unwrap();
    assert_eq!(c.coeffs, expected.coeffs);
    assert_eq!(expected.coeffs, vec![3, 6, 1, 2, 0, 0, 0, 0]);
}

#[test]
fn plan_mismatch_is_an_error() {
    let plan = NttPlan::new(P, 16).unwrap();
    let mut a = coeff_poly(vec![1, 2, 3, 4, 5, 6, 7, 8]);
    let r = a.ntt_forward(&plan);
    assert!(matches!(r, Err(MathError::NttUnsupported { modulus: P, degree: 8 })));
    assert_eq!(a.coeffs, vec![1, 2, 3, 4, 5, 6, 7, 8]);
    assert!(a.mul(&a, &plan).is_err());
}

#[test]
fn add_then_sub_restores() {
    let a = coeff_poly(vec![5, P - 1, 0, 7, 1, 2, 3, 4]);
    let b = coeff_poly(vec![P - 2, 3, 9, 0, 0, 1, P - 1, 8]);
    assert_eq!(a.add(&b).sub(&b).coeffs, a.coeffs);
}
