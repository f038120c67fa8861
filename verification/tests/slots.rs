use fhe_ckks::slots::bit_reversal_permutation;

#[test]
fn test_bit_reversal_n4() {
    let perm = bit_reversal_permutation(4);
    assert_eq!(perm, vec![0, 2, 1, 3]);
}

#[test]
fn test_bit_reversal_n8() {
    let perm = bit_reversal_permutation(8);
    assert_eq!(perm, vec![0, 4, 2, 6, 1, 5, 3, 7]);
}

#[test]
fn bit_reversal_is_an_involution() {
    let perm = bit_reversal_permutation(64);
    for i in 0..64 {
        assert_eq!(perm[perm[i]], i);
    }
    assert_eq!(bit_reversal_permutation(2), vec![0, 1]);
}

#[test]
fn bit_reversal_of_one_slot_is_identity() {
    assert_eq!(bit_reversal_permutation(1), vec![0]);
}
