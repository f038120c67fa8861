//! Bit reversal of indices: the permutation that maps the output order of the
//! decimation-in-frequency network to natural order.

use crate::arith::{is_pow2, lemma_is_pow2_half};
use vstd::arithmetic::div_mod::{
    lemma_div_denominator, lemma_fundamental_div_mod, lemma_fundamental_div_mod_converse,
    lemma_mod_breakdown, lemma_mod_mod,
};
use vstd::arithmetic::power2::{lemma_pow2_pos, lemma_pow2_unfold, pow2};
use vstd::prelude::*;

verus! {

/// The `bits` low-order bits of `i`, in reverse order.
pub open spec fn bitrev(i: nat, bits: nat) -> nat
    decreases bits,
{
    if bits == 0 {
        0
    } else {
        (i % 2) * pow2((bits - 1) as nat) + bitrev(i / 2, (bits - 1) as nat)
    }
}

/// A reversed index stays below `2^bits`.
pub proof fn lemma_bitrev_bound(i: nat, bits: nat)
    ensures
        bitrev(i, bits) < pow2(bits),
    decreases bits,
{
    if bits == 0 {
        vstd::arithmetic::power2::lemma2_to64();
    } else {
        lemma_bitrev_bound(i / 2, (bits - 1) as nat);
        lemma_pow2_unfold(bits);
        lemma_pow2_pos((bits - 1) as nat);
        let p = pow2((bits - 1) as nat);
        assert((i % 2) * p <= p) by (nonlinear_arith)
            requires
                i % 2 < 2,
                p > 0,
        ;
    }
}

/// Reversing `bits + 1` bits moves the top bit to the bottom.
proof fn lemma_bitrev_top(i: nat, bits: nat)
    ensures
        bitrev(i, bits + 1) == 2 * bitrev(i % pow2(bits), bits) + (i / pow2(bits)) % 2,
    decreases bits,
{
    if bits == 0 {
        vstd::arithmetic::power2::lemma2_to64();
        assert(pow2(0) == 1);
        assert(bitrev(i / 2, 0) == 0);
        assert((i % 2) * 1 == i % 2);
        assert(bitrev(i, 1) == i % 2);
        assert(i % 1 == 0);
        assert(i / 1 == i);
    } else {
        let b1 = (bits - 1) as nat;
        lemma_bitrev_top(i / 2, b1);
        lemma_pow2_unfold(bits);
        lemma_pow2_pos(b1);
        let p = pow2(b1) as int;
        // (i % 2p) % 2 == i % 2
        lemma_mod_mod(i as int, 2, p);
        // i % 2p == 2 * ((i / 2) % p) + i % 2
        lemma_mod_breakdown(i as int, 2, p);
        let low = (i as int) % (2 * p);
        assert(low / 2 == ((i as int) / 2) % p) by {
            vstd::arithmetic::div_mod::lemma_mod_bound(i as int, 2);
            lemma_fundamental_div_mod_converse(low, 2, ((i as int) / 2) % p, (i as int) % 2);
        }
        // (i / 2) / p == i / 2p
        lemma_div_denominator(i as int, 2, p);
        assert(pow2(bits) == 2 * p);
        let lown = i % pow2(bits);
        assert(lown % 2 == i % 2);
        assert(lown / 2 == (i / 2) % pow2(b1));
        assert((i / 2) / pow2(b1) == i / pow2(bits));
        assert(bitrev(lown, bits) == (lown % 2) * pow2(b1) + bitrev(lown / 2, b1));
        assert(bitrev(i, bits + 1) == (i % 2) * pow2(bits) + bitrev(i / 2, bits));
        assert((i % 2) * pow2(bits) == 2 * ((i % 2) * pow2(b1))) by (nonlinear_arith)
            requires
                pow2(bits) == 2 * pow2(b1),
        ;
    }
}

/// Bit reversal is an involution on indices below `2^bits`.
pub proof fn lemma_bitrev_involution(i: nat, bits: nat)
    requires
        i < pow2(bits),
    ensures
        bitrev(bitrev(i, bits), bits) == i,
    decreases bits,
{
    if bits == 0 {
        vstd::arithmetic::power2::lemma2_to64();
    } else {
        let b1 = (bits - 1) as nat;
        let p = pow2(b1) as int;
        lemma_pow2_unfold(bits);
        lemma_pow2_pos(b1);
        let s = bitrev(i / 2, b1);
        lemma_bitrev_bound(i / 2, b1);
        let j = bitrev(i, bits);
        assert(j == (i % 2) * p + s);
        lemma_fundamental_div_mod_converse(j as int, p, (i % 2) as int, s as int);
        lemma_bitrev_top(j, b1);
        assert((i / 2) < p) by {
            lemma_fundamental_div_mod(i as int, 2);
        }
        lemma_bitrev_involution(i / 2, b1);
        lemma_fundamental_div_mod(i as int, 2);
    }
}

/// Reverse the `bits` low-order bits of `i`.
pub(crate) fn reverse_low_bits(i: usize, bits: u32) -> (r: usize)
    requires
        pow2(bits as nat) <= usize::MAX,
    ensures
        r == bitrev(i as nat, bits as nat),
{
    let mut x = i;
    let mut acc = 0usize;
    let mut k = 0u32;
    proof {
        vstd::arithmetic::power2::lemma2_to64();
        assert(acc * pow2(bits as nat) == 0);
    }
    while k < bits
        invariant
            k <= bits,
            pow2(bits as nat) <= usize::MAX,
            acc < pow2(k as nat),
            acc * pow2((bits - k) as nat) + bitrev(x as nat, (bits - k) as nat) == bitrev(
                i as nat,
                bits as nat,
            ),
        decreases bits - k,
    {
        let ghost m = (bits - k) as nat;
        proof {
            lemma_pow2_unfold(m);
            lemma_pow2_unfold((k + 1) as nat);
            if k + 1 < bits {
                vstd::arithmetic::power2::lemma_pow2_strictly_increases((k + 1) as nat, bits as nat);
            }
            assert((acc * 2 + x % 2) * pow2((m - 1) as nat) == acc * pow2(m) + (x % 2) * pow2(
                (m - 1) as nat,
            )) by (nonlinear_arith)
                requires
                    pow2(m) == 2 * pow2((m - 1) as nat),
            ;
        }
        acc = acc * 2 + x % 2;
        x = x / 2;
        k = k + 1;
    }
    proof {
        assert(bitrev(x as nat, 0) == 0);
        assert(acc * pow2(0) == acc);
    }
    acc
}

/// `n` is `2^k` for the number `k` of times it can be halved down to one.
pub(crate) fn log2_exact(n: usize) -> (k: u32)
    requires
        is_pow2(n as nat),
    ensures
        n == pow2(k as nat),
{
    let mut m = n;
    let mut k = 0u32;
    proof {
        vstd::arithmetic::power2::lemma2_to64();
        assert(m * pow2(0) == m);
    }
    while m > 1
        invariant
            is_pow2(m as nat),
            m * pow2(k as nat) == n,
            m >= 1,
            m > 1 ==> pow2((k + 1) as nat) <= n,
            k < 64,
        decreases m,
    {
        proof {
            lemma_is_pow2_half(m as nat);
            if k + 1 >= 64 {
                vstd::arithmetic::power2::lemma2_to64_rest();
                if k + 1 > 64 {
                    vstd::arithmetic::power2::lemma_pow2_strictly_increases(64, (k + 1) as nat);
                }
            }
            lemma_pow2_unfold((k + 1) as nat);
            assert((m / 2) * pow2((k + 1) as nat) == n) by (nonlinear_arith)
                requires
                    m * pow2(k as nat) == n,
                    m % 2 == 0,
                    pow2((k + 1) as nat) == 2 * pow2(k as nat),
            ;
            lemma_is_pow2_half((m / 2) as nat);
            if m / 2 > 1 {
                lemma_pow2_unfold((k + 2) as nat);
                lemma_pow2_pos((k + 1) as nat);
                assert(pow2((k + 2) as nat) <= n) by (nonlinear_arith)
                    requires
                        (m / 2) * pow2((k + 1) as nat) == n,
                        m / 2 >= 2,
                        pow2((k + 2) as nat) == 2 * pow2((k + 1) as nat),
                        pow2((k + 1) as nat) > 0,
                ;
                if k + 2 >= 64 {
                    vstd::arithmetic::power2::lemma2_to64_rest();
                    if k + 2 > 64 {
                        vstd::arithmetic::power2::lemma_pow2_strictly_increases(64, (k + 2) as nat);
                    }
                }
            }
        }
        m = m / 2;
        k = k + 1;
    }
    proof {
        lemma_is_pow2_half(m as nat);
        assert(1 * pow2(k as nat) == pow2(k as nat));
    }
    k
}


/// The number of halvings that bring `n` down to one: `log2(2^k) == k`.
pub open spec fn log2(n: nat) -> nat
    decreases n,
{
    if n <= 1 {
        0
    } else {
        1 + log2(n / 2)
    }
}

/// `log2` inverts `pow2`.
pub proof fn lemma_log2_pow2(k: nat)
    ensures
        log2(pow2(k)) == k,
    decreases k,
{
    if k == 0 {
        vstd::arithmetic::power2::lemma2_to64();
    } else {
        lemma_pow2_unfold(k);
        lemma_pow2_pos((k - 1) as nat);
        lemma_log2_pow2((k - 1) as nat);
        assert(pow2(k) / 2 == pow2((k - 1) as nat));
    }
}

/// `x` reordered by bit reversal of its indices: entry `i` of the result is
/// entry `bitrev(i)` of `x`.
pub open spec fn bit_reverse_seq(x: Seq<u64>) -> Seq<u64> {
    Seq::new(x.len(), |i: int| x[bitrev(i as nat, log2(x.len())) as int])
}

/// Bit reversal of a power-of-two-length sequence undoes itself.
pub proof fn lemma_bit_reverse_twice(x: Seq<u64>)
    requires
        is_pow2(x.len()),
    ensures
        bit_reverse_seq(bit_reverse_seq(x)) == x,
{
    let n = x.len();
    let b = log2(n);
    lemma_pow2_of_log2(n);
    assert forall|i: int| 0 <= i < n implies #[trigger] bit_reverse_seq(bit_reverse_seq(x))[i] == x[i] by {
        lemma_bitrev_bound(i as nat, b);
        lemma_bitrev_involution(i as nat, b);
    }
    assert(bit_reverse_seq(bit_reverse_seq(x)) =~= x);
}

/// A power of two is `2^log2`.
pub proof fn lemma_pow2_of_log2(n: nat)
    requires
        is_pow2(n),
    ensures
        pow2(log2(n)) == n,
    decreases n,
{
    lemma_is_pow2_half(n);
    if n == 1 {
        vstd::arithmetic::power2::lemma2_to64();
    } else {
        lemma_pow2_of_log2(n / 2);
        lemma_pow2_unfold(log2(n));
    }
}

/// Reorder `data` in place by bit reversal of its indices.
pub(crate) fn bit_reverse_permute(data: &mut [u64])
    requires
        old(data)@.len() <= 1 || is_pow2(old(data)@.len() as nat),
    ensures
        final(data)@ == bit_reverse_seq(old(data)@),
{
    let ghost before = data@;
    let n = data.len();
    if n <= 1 {
        proof {
            if n == 1 {
                assert(bitrev(0, log2(1)) == 0);
            }
            assert(data@ =~= bit_reverse_seq(before));
        }
        return;
    }
    let nbits = log2_exact(n);
    let ghost b = nbits as nat;
    proof {
        lemma_log2_pow2(b);
    }
    let mut i = 0usize;
    while i < n
        invariant
            n == data@.len() == before.len(),
            n == pow2(b),
            b == nbits,
            b == log2(n as nat),
            i <= n,
            forall|k: int|
                0 <= k < n ==> #[trigger] data@[k] == if k < i || bitrev(k as nat, b) < i {
                    before[bitrev(k as nat, b) as int]
                } else {
                    before[k]
                },
        decreases n - i,
    {
        let j = reverse_low_bits(i, nbits);
        proof {
            lemma_bitrev_bound(i as nat, b);
            lemma_bitrev_involution(i as nat, b);
            lemma_bitrev_bound(j as nat, b);
            lemma_bitrev_involution(j as nat, b);
        }
        if i < j {
            let t = data[i];
            let u = data[j];
            data[i] = u;
            data[j] = t;
        }
        proof {
            assert forall|k: int| 0 <= k < n implies #[trigger] data@[k] == if k < i + 1 || bitrev(
                k as nat,
                b,
            ) < i + 1 {
                before[bitrev(k as nat, b) as int]
            } else {
                before[k]
            } by {
                lemma_bitrev_bound(k as nat, b);
                lemma_bitrev_involution(k as nat, b);
            }
        }
        i += 1;
    }
    proof {
        assert forall|k: int| 0 <= k < n implies #[trigger] data@[k] == bit_reverse_seq(before)[k] by {}
        assert(data@ =~= bit_reverse_seq(before));
    }
}

/// Reversing `bits + 1` bits moves the top bit to the bottom (public form).
pub proof fn lemma_bitrev_top_pub(i: nat, bits: nat)
    ensures
        bitrev(i, bits + 1) == 2 * bitrev(i % pow2(bits), bits) + (i / pow2(bits)) % 2,
{
    lemma_bitrev_top(i, bits);
}
} // verus!
