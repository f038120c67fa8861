//! Slot ordering of the CKKS canonical embedding.

use crate::arith::is_pow2;
use crate::bitrev::{
    bitrev, lemma_bitrev_bound, lemma_bitrev_involution, lemma_log2_pow2, log2, log2_exact,
    reverse_low_bits,
};
use vstd::prelude::*;

verus! {

/// The bit-reversal permutation of `0..n`: entry `i` is `i` with its `log2(n)`
/// low-order bits reversed. It is its own inverse.
pub fn bit_reversal_permutation(n: usize) -> (perm: Vec<usize>)
    requires
        is_pow2(n as nat),
    ensures
        perm.len() == n,
        forall|i: int| 0 <= i < n ==> #[trigger] perm[i] == bitrev(i as nat, log2(n as nat)),
        forall|i: int| 0 <= i < n ==> #[trigger] perm[i] < n && perm[perm[i] as int] == i,
{
    let log_n = log2_exact(n);
    let ghost b = log_n as nat;
    proof {
        lemma_log2_pow2(b);
    }
    let mut perm: Vec<usize> = Vec::with_capacity(n);
    let mut i = 0usize;
    while i < n
        invariant
            n == vstd::arithmetic::power2::pow2(b),
            b == log_n,
            b == log2(n as nat),
            i <= n,
            perm.len() == i,
            forall|k: int| 0 <= k < i ==> #[trigger] perm[k] == bitrev(k as nat, b),
        decreases n - i,
    {
        let j = reverse_low_bits(i, log_n);
        perm.push(j);
        i += 1;
    }
    proof {
        assert forall|k: int| 0 <= k < n implies #[trigger] perm[k] < n && perm[perm[k] as int] == k by {
            lemma_bitrev_bound(k as nat, b);
            lemma_bitrev_involution(k as nat, b);
        }
    }
    perm
}

} // verus!
