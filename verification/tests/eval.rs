use fhe_ckks::ckks_error::CkksError;
use fhe_ckks::eval::{add_ct_ct, add_ct_pt, negate, sub_ct_ct};
use fhe_ckks::params::{Ciphertext, Plaintext};
use fhe_ckks::rns::{RnsBasis, RnsPoly};

#[test]
fn test_add_level_mismatch() {
    // Build two dummy ciphertexts at different levels
    let basis = RnsBasis::new(vec![7681]);
    let zero = RnsPoly::zero(4, basis);
    let ct1 = Ciphertext::new(zero.clone(), zero.clone(), 2, 1.0f64.to_bits());
    let ct2 = Ciphertext::new(zero.clone(), zero.clone(), 1, 1.0f64.to_bits());
    assert!(add_ct_ct(&ct1, &ct2).is_err());
}

fn rns(coeffs: &[u64]) -> RnsPoly {
    RnsPoly::from_coeffs(coeffs, RnsBasis::new(vec![97, 193]))
}

#[test]
fn add_and_sub_work_limbwise() {
    let a = Ciphertext::new(rns(&[90, 1, 2, 3]), rns(&[5, 6, 7, 8]), 1, 7);
    let b = Ciphertext::new(rns(&[10, 96, 0, 100]), rns(&[1, 1, 1, 1]), 1, 7);
    let s = add_ct_ct(&a, &b).unwrap();
    assert_eq!(s.level, 1);
    assert_eq!(s.scale_bits, 7);
    assert_eq!(s.c0.limbs[0].coeffs, vec![3, 0, 2, 6]);
    assert_eq!(s.c0.limbs[1].coeffs, vec![100, 97, 2, 103]);
    assert_eq!(s.c1.limbs[0].coeffs, vec![6, 7, 8, 9]);
    let d = sub_ct_ct(&s, &b).unwrap();
    assert_eq!(d.c0.limbs[0].coeffs, a.c0.limbs[0].coeffs);
    assert_eq!(d.c0.limbs[1].coeffs, a.c0.limbs[1].coeffs);
    assert_eq!(d.c1.limbs[1].coeffs, a.c1.limbs[1].coeffs);
}

#[test]
fn level_mismatch_messages() {
    let a = Ciphertext::new(rns(&[1, 2, 3, 4]), rns(&[1, 2, 3, 4]), 2, 0);
    let b = Ciphertext::new(rns(&[1, 2, 3, 4]), rns(&[1, 2, 3, 4]), 1, 0);
    match sub_ct_ct(&a, &b) {
        Err(CkksError::Eval(msg)) => assert_eq!(msg, "sub_ct_ct: level mismatch 2 vs 1"),
        _ => panic!("expected an Eval error"),
    }
    let pt = Plaintext::new(rns(&[1, 2, 3, 4]), 0, 0);
    match add_ct_pt(&a, &pt) {
        Err(CkksError::Eval(msg)) => assert_eq!(msg, "add_ct_pt: level mismatch ct=2 pt=0"),
        _ => panic!("expected an Eval error"),
    }
}

#[test]
fn add_plaintext_touches_only_c0() {
    let ct = Ciphertext::new(rns(&[1, 2, 3, 4]), rns(&[5, 6, 7, 8]), 0, 3);
    let pt = Plaintext::new(rns(&[96, 0, 0, 1]), 0, 3);
    let out = add_ct_pt(&ct, &pt).unwrap();
    assert_eq!(out.c0.limbs[0].coeffs, vec![0, 2, 3, 5]);
    assert_eq!(out.c0.limbs[1].coeffs, vec![97, 2, 3, 5]);
    assert_eq!(out.c1.limbs[0].coeffs, vec![5, 6, 7, 8]);
    assert_eq!(out.scale_bits, 3);
}

#[test]
fn negate_maps_to_additive_inverse() {
    let ct = Ciphertext::new(rns(&[0, 1, 96, 50]), rns(&[2, 0, 0, 0]), 1, 5);
    let n = negate(&ct);
    assert_eq!(n.c0.limbs[0].coeffs, vec![0, 96, 1, 47]);
    assert_eq!(n.c0.limbs[1].coeffs, vec![0, 192, 97, 143]);
    assert_eq!(n.c1.limbs[0].coeffs, vec![95, 0, 0, 0]);
    let z = add_ct_ct(&ct, &n).unwrap();
    assert!(z.c0.limbs.iter().all(|l| l.coeffs.iter().all(|&c| c == 0)));
    assert!(z.c1.limbs.iter().all(|l| l.coeffs.iter().all(|&c| c == 0)));
}

#[test]
fn scale_mismatch_is_an_eval_error() {
    let a = Ciphertext::new(rns(&[1, 2, 3, 4]), rns(&[1, 2, 3, 4]), 1, 2f64.to_bits());
    let b = Ciphertext::new(rns(&[1, 2, 3, 4]), rns(&[1, 2, 3, 4]), 1, 4f64.to_bits());
    match add_ct_ct(&a, &b) {
        Err(CkksError::Eval(msg)) => assert_eq!(msg, "add_ct_ct: scale mismatch"),
        _ => panic!("expected an Eval error"),
    }
    assert!(matches!(sub_ct_ct(&a, &b), Err(CkksError::Eval(_))));
    let pt = Plaintext::new(rns(&[1, 2, 3, 4]), 1, 4f64.to_bits());
    assert!(matches!(add_ct_pt(&a, &pt), Err(CkksError::Eval(_))));
}

#[test]
fn scales_compare_as_floats() {
    let a = Ciphertext::new(rns(&[1, 2, 3, 4]), rns(&[1, 2, 3, 4]), 1, 0.0f64.to_bits());
    let b = Ciphertext::new(rns(&[1, 2, 3, 4]), rns(&[1, 2, 3, 4]), 1, (-0.0f64).to_bits());
    assert!(add_ct_ct(&a, &b).is_ok());
    let n1 = Ciphertext::new(rns(&[1, 2, 3, 4]), rns(&[1, 2, 3, 4]), 1, f64::NAN.to_bits());
    let n2 = Ciphertext::new(rns(&[1, 2, 3, 4]), rns(&[1, 2, 3, 4]), 1, f64::NAN.to_bits());
    assert!(matches!(add_ct_ct(&n1, &n2), Err(CkksError::Eval(_))));
    assert!(fhe_ckks::params::same_scale(2f64.to_bits(), 2f64.to_bits()));
    assert!(!fhe_ckks::params::same_scale(f64::INFINITY.to_bits(), f64::NEG_INFINITY.to_bits()));
    assert!(fhe_ckks::params::same_scale(f64::INFINITY.to_bits(), f64::INFINITY.to_bits()));
}
