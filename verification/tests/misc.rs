use fhe_ckks::encoding::{centered, signed_to_rns};
use fhe_ckks::ckks_error::CkksError;
use fhe_ckks::difftest::OracleParams;
use fhe_ckks::ir::{DeadCodePass, IrType, LevelAssignPass, RescaleInsertPass};
use fhe_ckks::keys::{GaloisKey, PublicKey, RelinKey, SecretKey};
use fhe_ckks::ntt_build::ntt_plans_for_moduli;
use fhe_ckks::rns::{RnsBasis, RnsPoly};
use fhe_ckks::MathError;

#[test]
fn plans_for_a_modulus_chain() {
    let plans = ntt_plans_for_moduli(&[786_433, 998_244_353], 16).unwrap();
    assert_eq!(plans.len(), 2);
    assert_eq!(plans[0].modulus, 786_433);
    assert_eq!(plans[1].modulus, 998_244_353);
    assert!(plans.iter().all(|p| p.degree == 16));
    assert!(matches!(
        ntt_plans_for_moduli(&[786_433, 17], 16),
        Err(MathError::NttUnsupported { modulus: 17, degree: 16 })
    ));
    assert!(matches!(
        ntt_plans_for_moduli(&[786_433], 12),
        Err(MathError::DegreeNotPowerOfTwo(12))
    ));
    assert!(ntt_plans_for_moduli(&[], 12).unwrap().is_empty());
}

#[test]
fn pass_names() {
    assert_eq!(DeadCodePass.name(), "dead_code");
    assert_eq!(LevelAssignPass { max_depth: 3 }.name(), "level_assign");
    assert_eq!(RescaleInsertPass.name(), "rescale_insert");
}

#[test]
fn plain_data_types() {
    let p = OracleParams { poly_degree: 4096, scale_bits: 40, depth: 3 };
    assert_eq!(p, OracleParams { poly_degree: 4096, scale_bits: 40, depth: 3 });
    assert_eq!(IrType::CiphertextTy, IrType::CiphertextTy);
    assert_ne!(IrType::PlaintextTy, IrType::ScalarTy);
    let e = CkksError::LevelMismatch { expected: 2, got: 1 };
    assert!(matches!(e, CkksError::LevelMismatch { expected: 2, got: 1 }));
    assert!(matches!(CkksError::Math(MathError::NotPrime(4)), CkksError::Math(MathError::NotPrime(4))));
}

#[test]
fn keys_hold_rns_polynomials() {
    let basis = RnsBasis::new(vec![786_433]);
    let s = SecretKey { poly: RnsPoly::from_coeffs(&[1, 0, 786_432, 1], basis.clone()) };
    let pk = PublicKey { b: RnsPoly::zero(4, basis.clone()), a: RnsPoly::zero(4, basis.clone()) };
    let rlk = RelinKey { digits: vec![(RnsPoly::zero(4, basis.clone()), RnsPoly::zero(4, basis.clone()))] };
    let gk = GaloisKey { galois_elt: 5, ksk: (RnsPoly::zero(4, basis.clone()), RnsPoly::zero(4, basis)) };
    assert_eq!(s.poly.limbs[0].coeffs, vec![1, 0, 786_432, 1]);
    assert_eq!(pk.a.degree(), 4);
    assert_eq!(rlk.digits.len(), 1);
    assert_eq!(gk.galois_elt, 5);
}

#[test]
fn signed_residues_and_centering() {
    assert_eq!(signed_to_rns(10, 7), 3);
    assert_eq!(signed_to_rns(-3, 7), 4);
    assert_eq!(signed_to_rns(-7, 7), 0);
    assert_eq!(signed_to_rns(-14, 7), 0);
    assert_eq!(centered(3, 7), 3);
    assert_eq!(centered(4, 7), -3);
    for v in -3i64..=3 {
        assert_eq!(centered(signed_to_rns(v, 7), 7), v);
    }
}

#[test]
fn key_material_clones() {
    let basis = RnsBasis::new(vec![97, 193]);
    let one = RnsPoly::from_coeffs(&[1, 2, 3, 4], basis.duplicate());
    let zero = RnsPoly::zero(4, basis);
    let rk = RelinKey { digits: vec![(one.clone(), zero.clone()), (zero.clone(), one.clone())] };
    let rk2 = rk.clone();
    assert_eq!(rk2.digits.len(), 2);
    assert_eq!(rk2.digits[0].0.limbs[1].coeffs, vec![1, 2, 3, 4]);
    assert_eq!(rk2.digits[1].0.limbs[0].coeffs, vec![0, 0, 0, 0]);
    let gk = GaloisKey { galois_elt: 5, ksk: (one, zero) };
    let gk2 = gk.clone();
    assert_eq!(gk2.galois_elt, 5);
    assert_eq!(gk2.ksk.0.limbs[0].coeffs, vec![1, 2, 3, 4]);
}
