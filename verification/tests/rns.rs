use fhe_ckks::ntt::NttPlan;
use fhe_ckks::poly::Domain;
use fhe_ckks::rns::{RnsBasis, RnsPoly};
use fhe_ckks::rotate::apply_automorphism;
use fhe_ckks::MathError;

const Q0: u64 = 998_244_353;
const Q1: u64 = 985_661_441;

fn two_limb_basis() -> RnsBasis {
    RnsBasis::new(vec![Q0, Q1])
}

#[test]
fn test_zero_rns() {
    let basis = two_limb_basis();
    let p = RnsPoly::zero(8, basis);
    assert_eq!(p.num_limbs(), 2);
    assert!(p.limbs.iter().all(|l| l.coeffs.iter().all(|&c| c == 0)));
}

#[test]
fn test_from_coeffs_roundtrip() {
    let basis = two_limb_basis();
    let coeffs = vec![1u64, 2, 3, 4, 5, 6, 7, 8];
    let rns = RnsPoly::from_coeffs(&coeffs, basis);
    assert_eq!(rns.limbs[0].coeffs[0] % Q0, 1);
    assert_eq!(rns.limbs[1].coeffs[0] % Q1, 1);
}

#[test]
fn test_rns_add() {
    let basis = two_limb_basis();
    let a = RnsPoly::from_coeffs(&[1, 2, 3, 4, 5, 6, 7, 8], basis.clone());
    let b = RnsPoly::from_coeffs(&[8, 7, 6, 5, 4, 3, 2, 1], basis);
    let c = a.add(&b);
    for limb in &c.limbs {
        assert!(limb.coeffs.iter().all(|&x| x == 9), "expected all 9s");
    }
}

// ---- further cases ----

#[test]
fn basis_len_and_degree() {
    let basis = two_limb_basis();
    assert_eq!(basis.len(), 2);
    assert!(!basis.is_empty());
    assert!(RnsBasis::new(vec![]).is_empty());
    let p = RnsPoly::zero(16, basis);
    assert_eq!(p.degree(), 16);
    let empty = RnsPoly::zero(16, RnsBasis::new(vec![]));
    assert_eq!(empty.degree(), 0);
}

#[test]
fn from_coeffs_reduces_large_values() {
    let rns = RnsPoly::from_coeffs(&[Q0 + 5, u64::MAX], RnsBasis::new(vec![Q0, 7]));
    assert_eq!(rns.limbs[0].coeffs, vec![5, u64::MAX % Q0]);
    assert_eq!(rns.limbs[1].coeffs, vec![(Q0 + 5) % 7, u64::MAX % 7]);
}

#[test]
fn rns_sub_and_scalar_mul() {
    let basis = two_limb_basis();
    let a = RnsPoly::from_coeffs(&[1, 2, 3, 4], basis.clone());
    let b = RnsPoly::from_coeffs(&[2, 2, 2, 2], basis);
    let c = a.sub(&b);
    assert_eq!(c.limbs[0].coeffs, vec![Q0 - 1, 0, 1, 2]);
    assert_eq!(c.limbs[1].coeffs, vec![Q1 - 1, 0, 1, 2]);
    let d = c.scalar_mul(3);
    assert_eq!(d.limbs[0].coeffs, vec![Q0 - 3, 0, 3, 6]);
}

#[test]
fn rns_mul_is_limbwise_negacyclic() {
    let basis = two_limb_basis();
    let plans = vec![NttPlan::new(Q0, 8).unwrap(), NttPlan::new(Q1, 8).unwrap()];
    let a = RnsPoly::from_coeffs(&[1, 1, 0, 0, 0, 0, 0, 0], basis.clone());
    let b = RnsPoly::from_coeffs(&[0, 0, 0, 0, 0, 0, 0, 1], basis);
    let c = a.mul(&b, &plans).unwrap();
    // (1 + x) * x^7 = x^7 + x^8 = -1 + x^7
    assert_eq!(c.limbs[0].coeffs, vec![Q0 - 1, 0, 0, 0, 0, 0, 0, 1]);
    assert_eq!(c.limbs[1].coeffs, vec![Q1 - 1, 0, 0, 0, 0, 0, 0, 1]);
    let r = a.mul(&b, &plans[..1]);
    assert!(matches!(r, Err(MathError::RnsBasisMismatch { expected: 2, got: 1 })));
}

#[test]
fn rns_ntt_roundtrip() {
    let basis = two_limb_basis();
    let plans = vec![NttPlan::new(Q0, 8).unwrap(), NttPlan::new(Q1, 8).unwrap()];
    let mut a = RnsPoly::from_coeffs(&[1, 2, 3, 4, 5, 6, 7, 8], basis);
    a.ntt_forward(&plans).unwrap();
    assert!(a.limbs.iter().all(|l| l.domain == Domain::Ntt));
    a.ntt_inverse(&plans).unwrap();
    assert_eq!(a.limbs[0].coeffs, vec![1, 2, 3, 4, 5, 6, 7, 8]);
    assert_eq!(a.limbs[1].coeffs, vec![1, 2, 3, 4, 5, 6, 7, 8]);
    let wrong = vec![NttPlan::new(Q0, 16).unwrap(), NttPlan::new(Q1, 8).unwrap()];
    assert!(matches!(
        a.ntt_forward(&wrong),
        Err(MathError::NttUnsupported { modulus: Q0, degree: 8 })
    ));
    assert_eq!(a.limbs[1].domain, Domain::Coefficient);
}

#[test]
fn mod_down_divides_by_last_modulus() {
    let basis = RnsBasis::new(vec![17, 13]);
    // 13 * 5 = 65 is divided exactly by the last modulus 13.
    let a = RnsPoly::from_coeffs(&[65, 13 * 3], basis);
    let b = a.mod_down().unwrap();
    assert_eq!(b.num_limbs(), 1);
    assert_eq!(b.basis.moduli, vec![17]);
    assert_eq!(b.limbs[0].coeffs, vec![5, 3]);
}

#[test]
fn mod_down_uses_centered_lift() {
    let basis = RnsBasis::new(vec![17, 13]);
    // 64 mod 13 = 12, centered to -1; (64 - (-1)) / 13 = 5.
    let a = RnsPoly::from_coeffs(&[64], basis);
    let b = a.mod_down().unwrap();
    assert_eq!(b.limbs[0].coeffs, vec![5]);
}

#[test]
fn mod_down_errors() {
    let one = RnsPoly::from_coeffs(&[1, 2], RnsBasis::new(vec![17]));
    assert!(matches!(
        one.mod_down(),
        Err(MathError::RnsBasisMismatch { expected: 2, got: 1 })
    ));
    let shared = RnsPoly::from_coeffs(&[1, 2], RnsBasis::new(vec![6, 4]));
    assert!(matches!(shared.mod_down(), Err(MathError::NotPrime(6))));
}

#[test]
fn crt_reconstruct_recovers_values() {
    let basis = two_limb_basis();
    let big = 123_456_789_012_345u64;
    let a = RnsPoly::from_coeffs(&[0, 1, big, Q0 - 1], basis);
    let r = a.crt_reconstruct();
    assert_eq!(r, vec![0u128, 1, big as u128, (Q0 - 1) as u128]);
    let three = RnsPoly::from_coeffs(&[1000], RnsBasis::new(vec![7, 11, 13]));
    assert_eq!(three.crt_reconstruct(), vec![1000u128 % 1001]);
}

#[test]
fn automorphism_permutes_with_sign() {
    let basis = RnsBasis::new(vec![17]);
    // f = 1 + 2x + 3x^2 + 4x^3 in Z_17[x]/(x^4+1); f(x^3) = 1 + 2x^3 + 3x^6 + 4x^9
    //   = 1 + 2x^3 - 3x^2 + 4x  (x^6 = -x^2, x^9 = x)
    let f = RnsPoly::from_coeffs(&[1, 2, 3, 4], basis);
    let g = apply_automorphism(&f, 3, 4);
    assert_eq!(g.limbs[0].coeffs, vec![1, 4, 17 - 3, 2]);
    // f(x^-1) = f(x^7): conjugation
    let h = apply_automorphism(&f, 7, 4);
    // x^7 = -x^3, x^14 = -x^2, x^21 = x^5 = -x
    assert_eq!(h.limbs[0].coeffs, vec![1, 17 - 4, 17 - 3, 17 - 2]);
    // identity element
    assert_eq!(apply_automorphism(&f, 1, 4).limbs[0].coeffs, vec![1, 2, 3, 4]);
}
