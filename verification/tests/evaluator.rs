use fhe_ckks::ckks_error::CkksError;
use fhe_ckks::evaluator::{CkksEvaluator, KeyGenerator};
use fhe_ckks::keys::{GaloisKey, RelinKey};
use fhe_ckks::params::toy_params_arc;
use fhe_ckks::rns::{RnsBasis, RnsPoly};
use std::collections::HashMap;

fn galois_key(elt: u64) -> GaloisKey {
    let basis = RnsBasis::new(vec![786_433]);
    let zero = RnsPoly::zero(16, basis);
    GaloisKey { galois_elt: elt, ksk: (zero.clone(), zero) }
}

#[test]
fn evaluator_finds_stored_galois_keys() {
    let mut keys = HashMap::new();
    keys.insert(1, galois_key(5));
    keys.insert(-1, galois_key(13));
    let ev = CkksEvaluator::new(toy_params_arc(), RelinKey { digits: vec![] }, keys);
    assert_eq!(ev.get_galois_key(1).unwrap().galois_elt, 5);
    assert_eq!(ev.get_galois_key(-1).unwrap().galois_elt, 13);
    match ev.get_galois_key(2) {
        Err(CkksError::KeyNotFound(msg)) => assert_eq!(msg, "Galois key for step=2"),
        _ => panic!("expected KeyNotFound"),
    }
    match ev.get_galois_key(-3) {
        Err(CkksError::KeyNotFound(msg)) => assert_eq!(msg, "Galois key for step=-3"),
        _ => panic!("expected KeyNotFound"),
    }
    assert_eq!(ev.params.poly_degree, 16);
}

#[test]
fn key_generator_builds() {
    let _kg = KeyGenerator::new(toy_params_arc());
}
