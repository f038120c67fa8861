//! Fermat's little theorem, through the binomial theorem and the divisibility
//! of the middle binomial coefficients of a prime.

use crate::arith::{lemma_mod_add_both, lemma_mod_add_multiple, lemma_mod_mul_both, lemma_mod_small};
use crate::number_theory::{is_prime, lemma_euclid};
use vstd::arithmetic::power::pow;
use vstd::prelude::*;

verus! {

/// Binomial coefficients by Pascal's rule.
pub open spec fn binom(n: nat, k: nat) -> nat
    decreases n, k,
{
    if k == 0 {
        1
    } else if n == 0 {
        0
    } else {
        binom((n - 1) as nat, (k - 1) as nat) + binom((n - 1) as nat, k)
    }
}

/// `C(n, k) == 0` above the diagonal.
proof fn lemma_binom_above(n: nat, k: nat)
    requires
        k > n,
    ensures
        binom(n, k) == 0,
    decreases n,
{
    if n > 0 {
        lemma_binom_above((n - 1) as nat, (k - 1) as nat);
        lemma_binom_above((n - 1) as nat, k);
    }
}

/// `C(n, n) == 1`.
proof fn lemma_binom_diag(n: nat)
    ensures
        binom(n, n) == 1,
    decreases n,
{
    if n > 0 {
        lemma_binom_diag((n - 1) as nat);
        lemma_binom_above((n - 1) as nat, n);
    }
}

/// The first term of a partial sum is `C(n, 0) * a^0 == 1`.
proof fn lemma_binom_sum_one(a: int, n: nat)
    ensures
        binom_sum(a, n, 1) == 1,
{
    crate::arith::lemma_pow_succ(a, 0);
    assert(binom(n, 0) == 1);
    assert(binom_sum(a, n, 0) == 0);
    assert(binom_sum(a, n, 1) == binom_sum(a, n, 0) + binom(n, 0) * pow(a, 0));
}

/// Absorption: `k * C(n, k) == n * C(n-1, k-1)`.
proof fn lemma_binom_absorb(n: nat, k: nat)
    requires
        n >= 1,
        k >= 1,
    ensures
        k * binom(n, k) == n * binom((n - 1) as nat, (k - 1) as nat),
    decreases n,
{
    let n1 = (n - 1) as nat;
    let k1 = (k - 1) as nat;
    // k * C(n,k) = (k-1) * C(n-1,k-1) + C(n-1,k-1) + k * C(n-1,k)
    if n1 == 0 {
        if k > 1 {
            lemma_binom_above(0, k);
            lemma_binom_above(0, k1);
        }
    } else {
        if k1 >= 1 {
            lemma_binom_absorb(n1, k1);
        }
        lemma_binom_absorb(n1, k);
        let a = binom(n1, k1);
        let b = binom(n1, k);
        let c = binom((n1 - 1) as nat, (k1 - 1) as nat);
        let d = binom((n1 - 1) as nat, k1);
        assert(binom(n, k) == a + b);
        if k1 >= 1 {
            assert(a == c + d);
            assert(k1 * a == n1 * c);
        } else {
            assert(a == 1);
        }
        assert(k * b == n1 * d);
        assert(binom(n1, k1) == (if k1 == 0 { 1 } else { c + d }));
        assert(k * (a + b) == n * a) by (nonlinear_arith)
            requires
                k1 == k - 1,
                n1 == n - 1,
                k1 >= 1 ==> k1 * a == n1 * c && a == c + d,
                k1 == 0 ==> a == 1,
                k * b == n1 * d,
                k1 == 0 ==> d == binom((n1 - 1) as nat, 0) && d == 1,
                k1 == 0 ==> k == 1,
        {
        }
    }
}

/// Every middle binomial coefficient of a prime `p` is a multiple of `p`.
proof fn lemma_binom_prime(p: nat, k: nat)
    requires
        is_prime(p),
        0 < k < p,
    ensures
        (binom(p, k) as int) % (p as int) == 0,
{
    lemma_binom_absorb(p, k);
    let m = binom((p - 1) as nat, (k - 1) as nat);
    assert((k * binom(p, k)) as int == (m as int) * (p as int)) by (nonlinear_arith)
        requires
            k * binom(p, k) == p * m,
    ;
    vstd::arithmetic::div_mod::lemma_mod_multiples_basic(m as int, p as int);
    lemma_euclid(p, k as int, binom(p, k) as int);
    lemma_mod_small(k as int, p as int);
}

/// `sum_{k < m} C(n, k) * a^k`.
pub open spec fn binom_sum(a: int, n: nat, m: nat) -> int
    decreases m,
{
    if m == 0 {
        0
    } else {
        binom_sum(a, n, (m - 1) as nat) + binom(n, (m - 1) as nat) * pow(a, (m - 1) as nat)
    }
}

/// Pascal's rule on partial sums.
proof fn lemma_binom_sum_split(a: int, n: nat, m: nat)
    ensures
        binom_sum(a, n + 1, m + 1) == binom_sum(a, n, m + 1) + a * binom_sum(a, n, m),
    decreases m,
{
    crate::arith::lemma_pow_succ(a, 0);
    if m > 0 {
        let m1 = (m - 1) as nat;
        lemma_binom_sum_split(a, n, m1);
        crate::arith::lemma_pow_succ(a, m1);
        assert(binom((n + 1) as nat, m) == binom(n, m1) + binom(n, m));
        let s0 = binom_sum(a, n, m1);
        let s1 = binom_sum(a, n, m);
        assert(s1 == s0 + binom(n, m1) * pow(a, m1));
        assert(binom_sum(a, n + 1, m + 1) == binom_sum(a, n + 1, m) + binom((n + 1) as nat, m)
            * pow(a, m));
        assert(binom_sum(a, n, m + 1) == s1 + binom(n, m) * pow(a, m));
        assert(binom_sum(a, n + 1, m) == binom_sum(a, n, m) + a * s0);
        assert(pow(a, m) == a * pow(a, m1));
        assert((binom(n, m1) + binom(n, m)) * pow(a, m) == binom(n, m) * pow(a, m) + a * (binom(
            n,
            m1,
        ) * pow(a, m1))) by (nonlinear_arith)
            requires
                pow(a, m) == a * pow(a, m1),
        ;
        assert(a * s1 == a * s0 + a * (binom(n, m1) * pow(a, m1))) by (nonlinear_arith)
            requires
                s1 == s0 + binom(n, m1) * pow(a, m1),
        ;
    } else {
        lemma_binom_sum_one(a, n + 1);
        lemma_binom_sum_one(a, n);
    }
}

/// The binomial theorem for `(a + 1)^n`.
proof fn lemma_binomial_theorem(a: int, n: nat)
    ensures
        pow(a + 1, n) == binom_sum(a, n, n + 1),
    decreases n,
{
    crate::arith::lemma_pow_succ(a + 1, 0);
    crate::arith::lemma_pow_succ(a, 0);
    if n > 0 {
        let n1 = (n - 1) as nat;
        lemma_binomial_theorem(a, n1);
        crate::arith::lemma_pow_succ(a + 1, n1);
        lemma_binom_sum_split(a, n1, n);
        lemma_binom_above(n1, n);
        assert(binom_sum(a, n1, n + 1) == binom_sum(a, n1, n) + binom(n1, n) * pow(a, n));
        assert(binom(n1, n) * pow(a, n) == 0) by (nonlinear_arith)
            requires
                binom(n1, n) == 0,
        ;
        assert((a + 1) * binom_sum(a, n1, n) == binom_sum(a, n1, n) + a * binom_sum(a, n1, n))
            by (nonlinear_arith);
    } else {
        lemma_binom_sum_one(a, 0);
    }
}

/// Modulo a prime `p`, the partial sums of the expansion of `(a+1)^p` up to
/// index `m <= p` are `1`.
proof fn lemma_binom_sum_prime(a: int, p: nat, m: nat)
    requires
        is_prime(p),
        1 <= m <= p,
    ensures
        binom_sum(a, p, m) % (p as int) == 1,
    decreases m,
{
    crate::arith::lemma_pow_succ(a, 0);
    if m == 1 {
        lemma_binom_sum_one(a, p);
        lemma_mod_small(1, p as int);
    } else {
        let m1 = (m - 1) as nat;
        lemma_binom_sum_prime(a, p, m1);
        lemma_binom_prime(p, m1);
        let c = binom(p, m1) as int;
        vstd::arithmetic::div_mod::lemma_fundamental_div_mod(c, p as int);
        let j = c / (p as int);
        assert(c * pow(a, m1) == (j * pow(a, m1)) * (p as int)) by (nonlinear_arith)
            requires
                c == (p as int) * j,
        ;
        lemma_mod_add_multiple(binom_sum(a, p, m1), j * pow(a, m1), p as int);
    }
}

/// Fermat: `a^p == a (mod p)` for a prime `p` and `a >= 0`.
pub proof fn lemma_fermat_power(a: nat, p: nat)
    requires
        is_prime(p),
    ensures
        pow(a as int, p) % (p as int) == (a as int) % (p as int),
    decreases a,
{
    if a == 0 {
        vstd::arithmetic::power::lemma0_pow(p);
    } else {
        let b = (a - 1) as nat;
        lemma_fermat_power(b, p);
        lemma_binomial_theorem(b as int, p);
        // (b+1)^p = sum_{k<p} C(p,k) b^k + b^p == 1 + b^p (mod p)
        lemma_binom_sum_prime(b as int, p, p);
        lemma_binom_diag(p);
        assert(binom_sum(b as int, p, p + 1) == binom_sum(b as int, p, p) + pow(b as int, p));
        lemma_mod_add_both(binom_sum(b as int, p, p), pow(b as int, p), p as int);
        lemma_mod_add_both(1, b as int, p as int);
        lemma_mod_small(1, p as int);
    }
}

/// Fermat's little theorem: `a^(p-1) == 1 (mod p)` for a prime `p` not dividing `a`.
pub proof fn lemma_fermat_little(a: nat, p: nat)
    requires
        is_prime(p),
        (a as int) % (p as int) != 0,
    ensures
        pow(a as int, (p - 1) as nat) % (p as int) == 1,
{
    let e = (p - 1) as nat;
    lemma_fermat_power(a, p);
    crate::arith::lemma_pow_succ(a as int, e);
    assert(e + 1 == p);
    let t = pow(a as int, e);
    // a * (t - 1) == 0 (mod p)
    vstd::arithmetic::div_mod::lemma_mod_equivalence(a * t, a as int, p as int);
    assert(a * t - a == a * (t - 1)) by (nonlinear_arith);
    vstd::arithmetic::div_mod::lemma_mod_equivalence(a * (t - 1), 0, p as int);
    lemma_mod_small(0, p as int);
    lemma_euclid(p, a as int, t - 1);
    vstd::arithmetic::div_mod::lemma_mod_equivalence(t, 1, p as int);
    lemma_mod_small(1, p as int);
}

/// `mod_inv` inverts: for a prime `m` not dividing `a`, `a * a^(m-2) == 1 (mod m)`.
pub proof fn lemma_mod_inv_inverts(a: nat, m: nat)
    requires
        is_prime(m),
        (a as int) % (m as int) != 0,
    ensures
        ((a as int) * (pow(a as int, (m - 2) as nat) % (m as int))) % (m as int) == 1,
{
    lemma_fermat_little(a, m);
    lemma_mod_mul_both(a as int, pow(a as int, (m - 2) as nat), m as int);
    crate::arith::lemma_pow_succ(a as int, (m - 2) as nat);
    assert((m - 2) as nat + 1 == (m - 1) as nat);
}


/// Inverses are unique: two residues below `m` that both invert `a` modulo `m` are equal.
pub proof fn lemma_inverse_unique(a: int, u: int, v: int, m: int)
    requires
        m > 0,
        0 <= u < m,
        0 <= v < m,
        (a * u) % m == 1,
        (a * v) % m == 1,
    ensures
        u == v,
{
    // u == u * (a * v) == (a * u) * v == v   (mod m)
    lemma_mod_mul_both(u, a * v, m);
    lemma_mod_mul_both(a * u, v, m);
    assert(u * (a * v) == (a * u) * v) by (nonlinear_arith);
    assert(u * 1 == u);
    assert(1 * v == v);
    lemma_mod_small(u, m);
    lemma_mod_small(v, m);
    lemma_mod_mul_both(u, 1, m);
    lemma_mod_mul_both(1, v, m);
}

/// For a prime modulus the extended-Euclid inverse and the Fermat inverse agree:
/// a residue `v < p` with `a * v == 1 (mod p)` is `a^(p-2) mod p`.
pub proof fn lemma_inverse_is_fermat(a: nat, v: int, p: nat)
    requires
        is_prime(p),
        (a as int) % (p as int) != 0,
        0 <= v < p,
        (a * v) % (p as int) == 1,
    ensures
        v == pow(a as int, (p - 2) as nat) % (p as int),
{
    lemma_mod_inv_inverts(a, p);
    crate::arith::lemma_mod_range(pow(a as int, (p - 2) as nat), p as int);
    lemma_inverse_unique(a as int, v, pow(a as int, (p - 2) as nat) % (p as int), p as int);
}
} // verus!
