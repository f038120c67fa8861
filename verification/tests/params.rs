use fhe_ckks::params::{
    pow2_f64_bits, secure_128bit_depth10, toy_params, toy_params_arc, Ciphertext, CkksParams,
    Plaintext,
};
use fhe_ckks::rns::{RnsBasis, RnsPoly};

#[test]
fn pow2_f64_bits_encodes_powers_of_two() {
    for k in 0u32..=1023 {
        assert_eq!(f64::from_bits(pow2_f64_bits(k)), 2f64.powi(k as i32));
    }
}

#[test]
fn toy_params_shape() {
    let p = toy_params();
    assert_eq!(p.poly_degree, 16);
    assert_eq!(p.q_chain, vec![786_433; 4]);
    assert_eq!(f64::from_bits(p.scale_bits), (1 << 20) as f64);
    assert_eq!(p.num_slots, 8);
    assert_eq!(p.max_depth, 3);
    let shared = toy_params_arc();
    assert_eq!(shared.q_chain, p.q_chain);
}

#[test]
fn secure_params_shape() {
    let p = secure_128bit_depth10();
    assert_eq!(p.poly_degree, 16384);
    assert_eq!(p.q_chain.len(), 11);
    assert_eq!(p.q_chain[0], 0x0003_FFFF_FFFF_0001);
    assert_eq!(p.q_chain[10], 0x0003_FFFF_FFF5_0001);
    assert_eq!(f64::from_bits(p.scale_bits), f64::powi(2.0, 44));
    assert_eq!(p.num_slots, 8192);
    assert_eq!(p.max_depth, 10);
}

#[test]
fn params_new_derives_slots_and_depth() {
    let p = CkksParams::new(32, vec![193, 257], 1.5f64.to_bits());
    assert_eq!(p.num_slots, 16);
    assert_eq!(p.max_depth, 1);
    assert_eq!(f64::from_bits(p.scale_bits), 1.5);
}

#[test]
fn rns_basis_at_level_takes_a_prefix() {
    let p = CkksParams::new(16, vec![97, 193, 257, 353], 0);
    assert_eq!(p.rns_basis_at_level(0).moduli, vec![97]);
    assert_eq!(p.rns_basis_at_level(2).moduli, vec![97, 193, 257]);
    assert_eq!(p.rns_basis_at_level(3).moduli, vec![97, 193, 257, 353]);
}

#[test]
fn ntt_plans_at_level_one_per_modulus() {
    let p = toy_params();
    let plans = p.ntt_plans_at_level(2);
    assert_eq!(plans.len(), 3);
    for plan in &plans {
        assert_eq!(plan.modulus, 786_433);
        assert_eq!(plan.degree, 16);
    }
}

#[test]
fn ciphertext_and_plaintext_constructors() {
    let basis = RnsBasis::new(vec![7681]);
    let zero = RnsPoly::zero(4, basis);
    let ct = Ciphertext::new(zero.clone(), zero.clone(), 2, 1.0f64.to_bits());
    assert_eq!(ct.level, 2);
    assert_eq!(ct.num_limbs(), 3);
    assert!(ct.params.is_none());
    assert_eq!(f64::from_bits(ct.scale_bits), 1.0);
    let pt = Plaintext::new(zero, 1, 4.0f64.to_bits());
    assert_eq!(pt.level, 1);
    assert_eq!(f64::from_bits(pt.scale_bits), 4.0);
}
