use fhe_ckks::slots::bit_reversal_permutation;
use fhe_ckks::modular::{mod_add, mod_mul, mod_pow, mod_sub};
use fhe_ckks::ntt::{primitive_root_of_unity, NttPlan, SpectralLayout};
use fhe_ckks::ntt_reference::ConcreteNttRefPlan;
use fhe_ckks::MathError;

const P_SMALL: u64 = 7681;
const P_NTT: u64 = 998_244_353;

fn assert_forward_matches_reference(input: &[u64]) {
    let plan = NttPlan::new(P_NTT, input.len()).unwrap();
    let reference = ConcreteNttRefPlan::new(P_NTT, input.len()).unwrap();

    let mut self_data = input.to_vec();
    let mut ref_data = input.to_vec();

    plan.forward_to_bitrev(&mut self_data);
    reference.forward(&mut ref_data);

    assert_eq!(self_data, ref_data);
}

fn assert_roundtrip(input: &[u64]) {
    let plan = NttPlan::new(P_NTT, input.len()).unwrap();
    let mut data = input.to_vec();
    plan.forward_to_bitrev(&mut data);
    plan.inverse_from_bitrev(&mut data);
    assert_eq!(data, input, "INTT(NTT(x)) should equal x");
}

fn assert_inverse_matches_reference(input: &[u64]) {
    let plan = NttPlan::new(P_NTT, input.len()).unwrap();
    let reference = ConcreteNttRefPlan::new(P_NTT, input.len()).unwrap();

    let mut spectral = input.to_vec();
    reference.forward(&mut spectral);

    let mut self_data = spectral.clone();
    let mut ref_data = spectral;

    plan.inverse_from_bitrev(&mut self_data);
    reference.inverse(&mut ref_data);

    assert_eq!(self_data, ref_data);
    assert_eq!(self_data, input);
}

fn assert_core_roundtrip(input: &[u64]) {
    let plan = NttPlan::new(P_NTT, input.len()).unwrap();
    let expected = input
        .iter()
        .map(|value| mod_mul(*value, input.len() as u64, P_NTT))
        .collect::<Vec<_>>();

    let mut data = input.to_vec();
    plan.forward_core_dif(&mut data);
    plan.inverse_core_dit(&mut data);

    assert_eq!(
        data, expected,
        "inverse_core_dit should undo forward_core_dif up to the global n factor"
    );
}

fn schoolbook_negacyclic_mul(lhs: &[u64], rhs: &[u64], modulus: u64) -> Vec<u64> {
    assert_eq!(lhs.len(), rhs.len());
    let n = lhs.len();
    let mut out = vec![0u64; n];

    for (i, &a) in lhs.iter().enumerate() {
        for (j, &b) in rhs.iter().enumerate() {
            let prod = mod_mul(a, b, modulus);
            let idx = i + j;
            if idx < n {
                out[idx] = mod_add(out[idx], prod, modulus);
            } else {
                out[idx - n] = mod_sub(out[idx - n], prod, modulus);
            }
        }
    }

    out
}

fn patterned_input(len: usize) -> Vec<u64> {
    (0..len)
        .map(|i| {
            let x = i as u64;
            (x * x * 17 + x * 29 + 11) % P_NTT
        })
        .collect()
}

fn dense_input_32() -> Vec<u64> {
    vec![
        0u64, 1, 4, 9, 16, 25, 5, 18, 2, 19, 7, 28, 12, 31, 21, 13, 8, 6, 27, 11, 30, 20, 14,
        10, 15, 22, 3, 17, 24, 26, 23, 29,
    ]
}

#[test]
fn test_plan_creation() {
    let plan = NttPlan::new(P_NTT, 8).unwrap();
    assert_eq!(
        plan.forward_output_spectral_layout(),
        SpectralLayout::BitReversed
    );
    assert_eq!(
        plan.inverse_input_spectral_layout(),
        SpectralLayout::BitReversed
    );
    assert_eq!(plan.dif_stages.len(), 3);
    assert_eq!(plan.dit_stages.len(), 3);
    assert!(NttPlan::new(P_NTT, 3).is_err());
}

#[test]
fn test_plan_creation_rejects_invalid_inputs() {
    assert!(NttPlan::new(P_NTT, 0).is_err());
    assert!(NttPlan::new(17, 16).is_err());
}

#[test]
fn test_primitive_root_of_unity_small_prime() {
    let psi = primitive_root_of_unity(P_SMALL, 8).unwrap();
    assert_eq!(mod_pow(psi, 16, P_SMALL), 1);
    assert_eq!(mod_pow(psi, 8, P_SMALL), P_SMALL - 1);
}

#[test]
fn test_primitive_root_of_unity_degree_one() {
    let psi = primitive_root_of_unity(P_NTT, 1).unwrap();
    assert_eq!(mod_pow(psi, 2, P_NTT), 1);
    assert_eq!(mod_pow(psi, 1, P_NTT), P_NTT - 1);
}

#[test]
fn test_primitive_root_of_unity_rejects_unsupported_modulus() {
    assert!(primitive_root_of_unity(17, 16).is_err());
}

#[test]
fn test_bit_reverse_permute() {
    let mut data = vec![0u64, 1, 2, 3, 4, 5, 6, 7];
    NttPlan::bit_reverse_in_place(&mut data);
    assert_eq!(data, vec![0, 4, 2, 6, 1, 5, 3, 7]);
}

#[test]
fn test_bit_reverse_permute_len1_is_noop() {
    let mut data = vec![42u64];
    NttPlan::bit_reverse_in_place(&mut data);
    assert_eq!(data, vec![42u64]);
}

#[test]
fn test_reference_roundtrip() {
    let reference = ConcreteNttRefPlan::new(P_NTT, 16).unwrap();
    let initial = vec![1u64, 2, 3, 4, 5, 6, 7, 8, 0, 1, 1, 2, 3, 5, 8, 13];
    let mut data = initial.clone();
    reference.forward(&mut data);
    reference.inverse(&mut data);
    assert_eq!(data, initial);
}

#[test]
fn test_reference_plan_rejects_tiny_degrees() {
    assert!(ConcreteNttRefPlan::new(P_NTT, 1).is_err());
    assert!(ConcreteNttRefPlan::new(P_NTT, 2).is_err());
}

#[test]
fn test_ntt_roundtrip_len1_high_value() {
    let input = vec![P_NTT - 7];
    assert_roundtrip(&input);
}

#[test]
fn test_forward_matches_reference_len16_dense_input() {
    let input = vec![5u64, 9, 2, 7, 1, 8, 3, 6, 4, 0, 11, 13, 10, 12, 14, 15];
    assert_forward_matches_reference(&input);
}

#[test]
fn test_forward_matches_reference_len16_sparse_input() {
    let input = vec![1u64, 0, 0, 0, 6, 0, 9, 0, 0, 0, 0, 0, 3, 0, 0, 0];
    assert_forward_matches_reference(&input);
}

#[test]
fn test_forward_matches_reference_len32_dense_input() {
    let input = dense_input_32();
    assert_forward_matches_reference(&input);
}

#[test]
fn test_forward_matches_reference_len256_patterned_input() {
    let input = patterned_input(256);
    assert_forward_matches_reference(&input);
}

#[test]
fn test_core_roundtrip_len1_input() {
    let input = vec![P_NTT - 5];
    assert_core_roundtrip(&input);
}

#[test]
fn test_core_roundtrip_len8_dense_input() {
    let input = vec![1u64, 2, 3, 4, 5, 6, 7, 8];
    assert_core_roundtrip(&input);
}

#[test]
fn test_core_roundtrip_len16_sparse_input() {
    let input = vec![1u64, 0, 0, 0, 6, 0, 9, 0, 0, 0, 0, 0, 3, 0, 0, 0];
    assert_core_roundtrip(&input);
}

#[test]
fn test_core_roundtrip_zero_vector() {
    let input = vec![0u64; 16];
    assert_core_roundtrip(&input);
}

#[test]
fn test_ntt_roundtrip_len2_high_values() {
    let input = vec![P_NTT - 1, P_NTT - 2];
    assert_roundtrip(&input);
}

#[test]
fn test_inverse_matches_reference_len16_dense_input() {
    let input = vec![5u64, 9, 2, 7, 1, 8, 3, 6, 4, 0, 11, 13, 10, 12, 14, 15];
    assert_inverse_matches_reference(&input);
}

#[test]
fn test_inverse_matches_reference_len32_dense_input() {
    let input = dense_input_32();
    assert_inverse_matches_reference(&input);
}

#[test]
fn test_inverse_matches_reference_len256_patterned_input() {
    let input = patterned_input(256);
    assert_inverse_matches_reference(&input);
}

#[test]
fn test_ntt_roundtrip_len8_dense_input() {
    let input = vec![1u64, 2, 3, 4, 5, 6, 7, 8];
    assert_roundtrip(&input);
}

#[test]
fn test_ntt_roundtrip_len16_dense_input() {
    let input = vec![5u64, 9, 2, 7, 1, 8, 3, 6, 4, 0, 11, 13, 10, 12, 14, 15];
    assert_roundtrip(&input);
}

#[test]
fn test_ntt_roundtrip_len32_dense_input() {
    let input = dense_input_32();
    assert_roundtrip(&input);
}

#[test]
fn test_ntt_roundtrip_zero_vector() {
    let input = vec![0u64; 32];
    assert_roundtrip(&input);
}

#[test]
fn test_ntt_roundtrip_len256_patterned_input() {
    let input = patterned_input(256);
    assert_roundtrip(&input);
}

#[test]
fn test_ntt_roundtrip_len1024_patterned_input() {
    let input = patterned_input(1024);
    assert_roundtrip(&input);
}

#[test]
fn test_self_impl_matches_concrete_ref() {
    let plan = NttPlan::new(P_NTT, 16).unwrap();
    let reference = ConcreteNttRefPlan::new(P_NTT, 16).unwrap();

    let lhs = vec![1u64, 4, 2, 8, 6, 0, 0, 0, 0, 0, 0, 0, 0, 0, 0, 0];
    let rhs = vec![3u64, 5, 7, 9, 0, 0, 0, 0, 0, 0, 0, 0, 0, 0, 0, 0];

    let mut self_lhs = lhs.clone();
    let mut self_rhs = rhs.clone();
    plan.forward_to_bitrev(&mut self_lhs);
    plan.forward_to_bitrev(&mut self_rhs);
    plan.pointwise_mul(&mut self_lhs, &self_rhs);
    plan.inverse_from_bitrev(&mut self_lhs);

    let mut ref_lhs = lhs;
    let mut ref_rhs = rhs;
    reference.forward(&mut ref_lhs);
    reference.forward(&mut ref_rhs);
    reference.pointwise_mul(&mut ref_lhs, &ref_rhs);
    reference.inverse(&mut ref_lhs);

    assert_eq!(self_lhs, ref_lhs);
}

#[test]
fn test_negacyclic_convolution_matches_schoolbook_len8() {
    let plan = NttPlan::new(P_NTT, 8).unwrap();
    let lhs = vec![1u64, 4, 2, 8, 6, 0, 7, 3];
    let rhs = vec![3u64, 5, 7, 9, 2, 1, 0, 4];

    let mut lhs_ntt = lhs.clone();
    let mut rhs_ntt = rhs.clone();
    plan.forward_to_bitrev(&mut lhs_ntt);
    plan.forward_to_bitrev(&mut rhs_ntt);
    plan.pointwise_mul(&mut lhs_ntt, &rhs_ntt);
    plan.inverse_from_bitrev(&mut lhs_ntt);

    let expected = schoolbook_negacyclic_mul(&lhs, &rhs, P_NTT);
    assert_eq!(lhs_ntt, expected);
}

#[test]
fn test_negacyclic_convolution_matches_schoolbook_high_values() {
    let plan = NttPlan::new(P_NTT, 16).unwrap();
    let lhs = vec![
        P_NTT - 1,
        P_NTT - 2,
        P_NTT - 3,
        P_NTT - 4,
        5,
        6,
        7,
        8,
        9,
        10,
        11,
        12,
        13,
        14,
        15,
        16,
    ];
    let rhs = vec![
        16u64,
        15,
        14,
        13,
        12,
        11,
        10,
        9,
        8,
        7,
        6,
        5,
        P_NTT - 4,
        P_NTT - 3,
        P_NTT - 2,
        P_NTT - 1,
    ];

    let mut lhs_ntt = lhs.clone();
    let mut rhs_ntt = rhs.clone();
    plan.forward_to_bitrev(&mut lhs_ntt);
    plan.forward_to_bitrev(&mut rhs_ntt);
    plan.pointwise_mul(&mut lhs_ntt, &rhs_ntt);
    plan.inverse_from_bitrev(&mut lhs_ntt);

    let expected = schoolbook_negacyclic_mul(&lhs, &rhs, P_NTT);
    assert_eq!(lhs_ntt, expected);
}

// ---- further cases ----

#[test]
fn plan_tables_have_expected_shapes() {
    let plan = NttPlan::new(P_SMALL, 16).unwrap();
    assert_eq!(plan.modulus, P_SMALL);
    assert_eq!(plan.degree, 16);
    assert_eq!(plan.psi_powers.len(), 16);
    assert_eq!(plan.psi_powers[0], 1);
    let lens: Vec<usize> = plan.dif_stages.iter().map(|s| s.len).collect();
    assert_eq!(lens, vec![16, 8, 4, 2]);
    let dit_lens: Vec<usize> = plan.dit_stages.iter().map(|s| s.len).collect();
    assert_eq!(dit_lens, vec![2, 4, 8, 16]);
    assert_eq!(mod_mul(plan.root, plan.root_inv, P_SMALL), 1);
    assert_eq!(mod_mul(plan.inv_degree, 16, P_SMALL), 1);
    let psi = plan.psi_powers[1];
    assert_eq!(mod_mul(psi, psi, P_SMALL), plan.root);
    assert_eq!(mod_pow(psi, 16, P_SMALL), P_SMALL - 1);
}

#[test]
fn plan_rejects_small_modulus() {
    assert!(NttPlan::new(2, 1).is_err());
    assert!(primitive_root_of_unity(2, 1).is_err());
}

#[test]
fn plan_creation_error_kinds() {
    assert!(matches!(
        NttPlan::new(P_NTT, 12),
        Err(MathError::DegreeNotPowerOfTwo(12))
    ));
    assert!(matches!(
        NttPlan::new(17, 16),
        Err(MathError::NttUnsupported { modulus: 17, degree: 16 })
    ));
}

#[test]
fn inverse_then_forward_restores_spectrum() {
    let plan = NttPlan::new(P_NTT, 16).unwrap();
    let spectrum = vec![9u64, 1, 5, 0, 3, 3, 7, 2, 8, 6, 4, 4, 1, 0, 2, 5];
    let mut data = spectrum.clone();
    plan.inverse_from_bitrev(&mut data);
    plan.forward_to_bitrev(&mut data);
    assert_eq!(data, spectrum);
}

#[test]
fn bit_reverse_twice_is_identity() {
    let initial: Vec<u64> = (0..32).map(|i| i * 3 + 1).collect();
    let mut data = initial.clone();
    NttPlan::bit_reverse_in_place(&mut data);
    assert_ne!(data, initial);
    NttPlan::bit_reverse_in_place(&mut data);
    assert_eq!(data, initial);
}

#[test]
fn pointwise_mul_multiplies_entries() {
    let plan = NttPlan::new(P_SMALL, 4).unwrap();
    let mut a = vec![2u64, 3, 7680, 0];
    let b = vec![5u64, 7680, 7680, 9];
    plan.pointwise_mul(&mut a, &b);
    assert_eq!(a, vec![10, 7678, 1, 0]);
}

#[test]
fn forward_evaluates_at_odd_powers_of_psi() {
    let n = 8;
    let plan = NttPlan::new(P_SMALL, n).unwrap();
    let psi = plan.psi_powers[1];
    let perm = bit_reversal_permutation(n);
    // the polynomial 3 + 2x + x^5 evaluated at psi^(2 * bitrev(t) + 1)
    let mut data = vec![3u64, 2, 0, 0, 0, 1, 0, 0];
    plan.forward_to_bitrev(&mut data);
    for t in 0..n {
        let zeta = mod_pow(psi, (2 * perm[t] + 1) as u64, P_SMALL);
        let expected = mod_add(
            mod_add(3, mod_mul(2, zeta, P_SMALL), P_SMALL),
            mod_pow(zeta, 5, P_SMALL),
            P_SMALL,
        );
        assert_eq!(data[t], expected, "t = {t}");
    }
}

fn pow_mod(b: u64, mut e: u64, m: u64) -> u64 {
    let mut r: u128 = 1;
    let mut b = (b % m) as u128;
    while e > 0 {
        if e & 1 == 1 {
            r = r * b % m as u128;
        }
        b = b * b % m as u128;
        e >>= 1;
    }
    r as u64
}

#[test]
fn primitive_root_found_for_every_friendly_prime() {
    // (prime q, largest power of two n with 2n | q - 1)
    let cases: [(u64, u64); 5] =
        [(17, 8), (97, 16), (12_289, 2048), (786_433, 131_072), (998_244_353, 1 << 22)];
    for (q, n_max) in cases {
        let mut n = 1u64;
        while n <= n_max {
            let psi = primitive_root_of_unity(q, n as usize).unwrap();
            assert_eq!(pow_mod(psi, 2 * n, q), 1);
            assert_eq!(pow_mod(psi, n, q), q - 1);
            if n <= 1024 {
                assert!(NttPlan::new(q, n as usize).is_ok());
            }
            n *= 2;
        }
    }
}

#[test]
fn reference_plan_exists_for_friendly_primes() {
    for (q, n_max) in [(12_289u64, 2048usize), (786_433, 1024), (998_244_353, 1024)] {
        let mut n = 16usize;
        while n <= n_max {
            let plan = ConcreteNttRefPlan::new(q, n).unwrap();
            assert_eq!(plan.get_modulus(), q);
            assert_eq!(plan.get_degree(), n);
            n *= 2;
        }
    }
}
