//! Generators of the multiplicative group modulo a prime: every prime `p >= 3`
//! has a residue passing the primitive-root test, and a residue passing it has
//! order exactly `p - 1`.

use crate::arith::{
    lemma_mod_mul_both, lemma_mod_range, lemma_mod_small, lemma_pow_mod_base, lemma_pow_mod_pow,
    lemma_pow_succ,
};
use crate::number_theory::{is_prime, lemma_euclid};
use vstd::arithmetic::div_mod::{lemma_div_decreases, lemma_fundamental_div_mod};
use vstd::arithmetic::power::{lemma1_pow, lemma_pow_adds, lemma_pow_multiplies, pow};
use vstd::prelude::*;

verus! {

/// The exponent of `r` in `n`: the largest `e` with `r^e` dividing `n`
/// (zero for `n == 0` or `r <= 1`).
pub open spec fn valuation(r: nat, n: nat) -> nat
    decreases n,
{
    if r > 1 && n > 0 && n % r == 0 {
        proof {
            lemma_div_decreases(n as int, r as int);
        }
        1 + valuation(r, n / r)
    } else {
        0
    }
}

/// What is left of `n` once every factor `r` is divided out.
pub open spec fn cofactor(r: nat, n: nat) -> nat
    decreases n,
{
    if r > 1 && n > 0 && n % r == 0 {
        proof {
            lemma_div_decreases(n as int, r as int);
        }
        cofactor(r, n / r)
    } else {
        n
    }
}

/// `n == r^valuation * cofactor`, and `r` does not divide the cofactor.
proof fn lemma_valuation(r: nat, n: nat)
    requires
        r > 1,
        n > 0,
    ensures
        n == pow(r as int, valuation(r, n)) * cofactor(r, n),
        cofactor(r, n) % r != 0,
        cofactor(r, n) >= 1,
        n % r == 0 ==> valuation(r, n) >= 1,
    decreases n,
{
    lemma_pow_succ(r as int, 0);
    if n % r == 0 {
        lemma_div_decreases(n as int, r as int);
        lemma_fundamental_div_mod(n as int, r as int);
        let n1 = n / r;
        assert(n1 > 0) by (nonlinear_arith)
            requires
                n == r * n1,
                n > 0,
        ;
        lemma_valuation(r, n1);
        let e1 = valuation(r, n1);
        lemma_pow_succ(r as int, e1);
        assert(n == pow(r as int, e1 + 1) * cofactor(r, n1)) by (nonlinear_arith)
            requires
                n == r * n1,
                n1 == pow(r as int, e1) * cofactor(r, n1),
                pow(r as int, e1 + 1) == r * pow(r as int, e1),
        ;
    }
}

/// A prime `s` other than the prime `r` that divides `r^e * m` divides `m`.
proof fn lemma_prime_divides_cofactor(s: nat, r: nat, e: nat, m: int)
    requires
        is_prime(s),
        is_prime(r),
        s != r,
        (pow(r as int, e) * m) % (s as int) == 0,
    ensures
        m % (s as int) == 0,
    decreases e,
{
    lemma_pow_succ(r as int, 0);
    if e > 0 {
        let e1 = (e - 1) as nat;
        lemma_pow_succ(r as int, e1);
        assert(pow(r as int, e) * m == (r as int) * (pow(r as int, e1) * m)) by (nonlinear_arith)
            requires
                pow(r as int, e) == r * pow(r as int, e1),
        ;
        lemma_euclid(s, r as int, pow(r as int, e1) * m);
        if (r as int) % (s as int) == 0 {
            if s < r {
                assert(r % s != 0);
            } else {
                lemma_mod_small(r as int, s as int);
            }
        }
        lemma_prime_divides_cofactor(s, r, e1, m);
    } else {
        assert(pow(r as int, e) * m == m);
    }
}

/// A residue `w` with `w^r == 1` for a prime `r` and `w^m == 1` for an `m`
/// that `r` does not divide is `1`.
proof fn lemma_order_cofactor(p: nat, w: int, r: nat, m: nat)
    requires
        is_prime(p),
        is_prime(r),
        0 <= w < p,
        pow(w, r) % (p as int) == 1,
        pow(w, m) % (p as int) == 1,
        (m as int) % (r as int) != 0,
    ensures
        w == 1,
{
    let pi = p as int;
    let ri = r as int;
    crate::fermat::lemma_mod_inv_inverts(m, r);
    let a = pow(m as int, (r - 2) as nat) % ri;
    crate::arith::lemma_mod_range(pow(m as int, (r - 2) as nat), ri);
    let an = a as nat;
    lemma_fundamental_div_mod(m * a, ri);
    let b = (m * a) / ri;
    assert(m * a >= 0) by (nonlinear_arith)
        requires
            m >= 0,
            a >= 0,
    ;
    assert(b >= 0) by (nonlinear_arith)
        requires
            m * a == ri * b + 1,
            m * a >= 0,
            ri > 1,
    ;
    let bn = b as nat;
    // w^(m a) == (w^m)^a == 1
    lemma_pow_multiplies(w, m, an);
    lemma_pow_mod_base(pow(w, m), an, pi);
    lemma1_pow(an);
    lemma_mod_small(1, pi);
    // w^(r b + 1) == (w^r)^b * w == w
    assert((m * an) as nat == (r * bn + 1) as nat);
    lemma_pow_adds(w, r * bn, 1);
    lemma_pow_multiplies(w, r, bn);
    lemma_pow_mod_base(pow(w, r), bn, pi);
    lemma1_pow(bn);
    lemma_pow_succ(w, 0);
    lemma_mod_mul_both(pow(w, r * bn), w, pi);
    lemma_mod_small(w, pi);
}

/// A residue `x` with `2 <= x <= d + 1`, `d = (p - 1) / r`, whose `d`-th power
/// is not one.
spec fn witness_for(p: nat, r: nat) -> int {
    choose|x: int|
        2 <= x <= ((p - 1) as nat / r) as nat + 1 && #[trigger] pow(x, ((p - 1) as nat / r) as nat) % (p as int)
            != 1
}

/// The part of order `r^e` of a generator, where `p - 1 == r^e * m`:
/// `x^m` for the witness `x`.
spec fn prime_part(p: nat, r: nat) -> int {
    pow(witness_for(p, r), cofactor(r, (p - 1) as nat)) % (p as int)
}

/// For a prime `r` dividing `p - 1`, the `r`-part has order `r^e`: it is a
/// nonzero residue, its `r^e`-th power is one and its `((p - 1) / r)`-th is not.
proof fn lemma_prime_part(p: nat, r: nat)
    requires
        is_prime(p),
        p >= 3,
        is_prime(r),
        ((p - 1) as int) % (r as int) == 0,
    ensures
        0 < prime_part(p, r) < p,
        pow(prime_part(p, r), pow(r as int, valuation(r, (p - 1) as nat)) as nat) % (p as int) == 1,
        pow(prime_part(p, r), ((p - 1) as nat / r) as nat) % (p as int) != 1,
{
    let pi = p as int;
    let ri = r as int;
    let n = (p - 1) as nat;
    lemma_valuation(r, n);
    let e = valuation(r, n);
    let m = cofactor(r, n);
    let e1 = (e - 1) as nat;
    lemma_pow_succ(ri, e1);
    vstd::arithmetic::power::lemma_pow_positive(ri, e);
    assert(e1 + 1 == e);
    // d == (p - 1) / r == r^(e-1) * m
    let re1 = pow(ri, e1);
    vstd::arithmetic::power::lemma_pow_positive(ri, e1);
    assert(n == ri * (re1 * m)) by (nonlinear_arith)
        requires
            n == pow(ri, e) * m,
            pow(ri, e) == ri * re1,
    ;
    vstd::arithmetic::div_mod::lemma_div_multiples_vanish(re1 * m, ri);
    let d = (n / r) as nat;
    assert(d == re1 * m);
    assert(1 <= d <= p - 2) by (nonlinear_arith)
        requires
            n == ri * d,
            ri >= 2,
            n == p - 1,
            p >= 3,
            re1 >= 1,
            m >= 1,
            d == re1 * m,
    ;
    crate::residues::lemma_non_root_exists(p, d);
    let x = witness_for(p, r);
    assert(2 <= x <= d + 1 && pow(x, d) % pi != 1);
    let y = prime_part(p, r);
    lemma_mod_range(pow(x, m), pi);
    // y^(r^e) == x^(p-1) == 1
    let re = pow(ri, e) as nat;
    lemma_pow_mod_pow(x, m, re, pi);
    assert(m * re == n) by (nonlinear_arith)
        requires
            n == pow(ri, e) * m,
            re == pow(ri, e),
    ;
    lemma_mod_small(x, pi);
    crate::fermat::lemma_fermat_little(x as nat, p);
    assert(pow(y, re) % pi == 1);
    if y == 0 {
        vstd::arithmetic::power::lemma_pow_positive(ri, e);
        vstd::arithmetic::power::lemma0_pow(re);
        assert(0int % pi == 0);
    }
    // w = y^(r^(e-1)) == x^d is not one, but w^r == 1
    let re1n = re1 as nat;
    lemma_pow_mod_pow(x, m, re1n, pi);
    assert(m * re1n == d) by (nonlinear_arith)
        requires
            d == re1 * m,
            re1n == re1,
    ;
    let w = pow(y, re1n) % pi;
    lemma_mod_range(pow(y, re1n), pi);
    lemma_pow_mod_pow(y, re1n, r, pi);
    assert(re1n * r == re) by (nonlinear_arith)
        requires
            ri == r,
            re == pow(ri, e),
            pow(ri, e) == ri * re1,
            re1n == re1,
    ;
    // y^((p-1)/r) == w^m, and w^m == 1 would force w == 1
    lemma_pow_mod_pow(y, re1n, m, pi);
    assert(re1n * m == d);
    if pow(y, d) % pi == 1 {
        lemma_order_cofactor(p, w, r, m);
    }
}

/// For primes `r != s` both dividing `p - 1`, the `r`-part vanishes under the
/// `((p - 1) / s)`-th power.
proof fn lemma_prime_part_other(p: nat, r: nat, s: nat)
    requires
        is_prime(p),
        p >= 3,
        is_prime(r),
        is_prime(s),
        r != s,
        ((p - 1) as int) % (r as int) == 0,
        ((p - 1) as int) % (s as int) == 0,
    ensures
        pow(prime_part(p, r), ((p - 1) as nat / s) as nat) % (p as int) == 1,
{
    let pi = p as int;
    let n = (p - 1) as nat;
    lemma_valuation(r, n);
    lemma_prime_part(p, r);
    let e = valuation(r, n);
    let m = cofactor(r, n);
    let re = pow(r as int, e);
    lemma_prime_divides_cofactor(s, r, e, m as int);
    lemma_fundamental_div_mod(m as int, s as int);
    let t = (m / s) as nat;
    assert(n == s * (re * t)) by (nonlinear_arith)
        requires
            n == re * m,
            m == s * t,
    ;
    vstd::arithmetic::power::lemma_pow_positive(r as int, e);
    vstd::arithmetic::div_mod::lemma_div_multiples_vanish(re * t, s as int);
    let y = prime_part(p, r);
    let ren = re as nat;
    lemma_pow_mod_pow(y, ren, t, pi);
    assert(ren * t == n / s);
    // (y^(r^e))^t == 1^t
    lemma_pow_mod_base(pow(y, ren), t, pi);
    lemma1_pow(t);
    lemma_mod_small(1, pi);
}

/// The factor that the prime `i` contributes to the generator: its part when
/// it divides `p - 1`, else one.
spec fn factor_at(p: nat, i: nat) -> int {
    if is_prime(i) && ((p - 1) as int) % (i as int) == 0 {
        prime_part(p, i)
    } else {
        1
    }
}

/// The product modulo `p` of the factors at `0..k`.
spec fn product_upto(p: nat, k: nat) -> int
    decreases k,
{
    if k == 0 {
        1
    } else {
        (product_upto(p, (k - 1) as nat) * factor_at(p, (k - 1) as nat)) % (p as int)
    }
}

/// Under the `((p - 1) / s)`-th power only the factor at `s` survives.
proof fn lemma_product_power(p: nat, k: nat, s: nat)
    requires
        is_prime(p),
        p >= 3,
        is_prime(s),
        ((p - 1) as int) % (s as int) == 0,
    ensures
        0 < product_upto(p, k) < p,
        pow(product_upto(p, k), ((p - 1) as nat / s) as nat) % (p as int) == if s < k {
            pow(factor_at(p, s), ((p - 1) as nat / s) as nat) % (p as int)
        } else {
            1
        },
    decreases k,
{
    let pi = p as int;
    let ex = ((p - 1) as nat / s) as nat;
    lemma1_pow(ex);
    lemma_mod_small(1, pi);
    if k > 0 {
        let k1 = (k - 1) as nat;
        lemma_product_power(p, k1, s);
        let a = product_upto(p, k1);
        let f = factor_at(p, k1);
        if is_prime(k1) && ((p - 1) as int) % (k1 as int) == 0 {
            lemma_prime_part(p, k1);
            if k1 != s {
                lemma_prime_part_other(p, k1, s);
            }
        }
        assert(0 < f < p);
        // the product stays a nonzero residue
        lemma_mod_range(a * f, pi);
        if (a * f) % pi == 0 {
            lemma_euclid(p, a, f);
            lemma_mod_small(a, pi);
            lemma_mod_small(f, pi);
        }
        // (a f)^ex == a^ex f^ex
        lemma_pow_mod_base(a * f, ex, pi);
        vstd::arithmetic::power::lemma_pow_distributes(a, f, ex);
        lemma_mod_mul_both(pow(a, ex), pow(f, ex), pi);
        lemma_mod_range(pow(f, ex), pi);
        lemma_mod_range(pow(a, ex), pi);
        let u = pow(a, ex) % pi;
        let v = pow(f, ex) % pi;
        assert(product_upto(p, k) == (a * f) % pi);
        assert(pow(product_upto(p, k), ex) % pi == (u * v) % pi);
        if k1 == s {
            assert(u == 1);
            lemma_mod_small(v, pi);
            assert(pow(product_upto(p, k), ex) % pi == v);
            assert(f == factor_at(p, s));
        } else {
            assert(v == 1);
            lemma_mod_small(u, pi);
            assert(pow(product_upto(p, k), ex) % pi == u);
        }
    } else {
        assert(product_upto(p, 0) == 1);
        assert(pow(product_upto(p, 0), ex) % pi == 1);
    }
}

/// Every prime `p >= 3` has a residue `2 <= g < p` that passes the
/// primitive-root test (a generator of the multiplicative group).
pub proof fn lemma_primitive_root_exists(p: u64)
    requires
        is_prime(p as nat),
        p >= 3,
    ensures
        exists|g: u64| 2 <= g < p && #[trigger] crate::modular::passes_root_test(g, p),
{
    let pn = p as nat;
    let pi = p as int;
    let g = product_upto(pn, pn);
    lemma_product_power(pn, pn, 2);
    assert(p % 2 != 0);
    assert(is_prime(2));
    assert forall|q: u64|
        is_prime(q as nat) && #[trigger] ((p - 1) as u64 % q) == 0 implies pow(
        g,
        ((p - 1) as u64 / q) as nat,
    ) % pi != 1 by {
        let qn = q as nat;
        assert(((p - 1) as int) % (q as int) == 0);
        lemma_product_power(pn, pn, qn);
        vstd::arithmetic::div_mod::lemma_fundamental_div_mod((p - 1) as int, q as int);
        if qn >= pn {
            lemma_mod_small((p - 1) as int, q as int);
        }
        lemma_prime_part(pn, qn);
        assert(((p - 1) as u64 / q) as nat == ((pn - 1) as nat / qn) as nat);
    }
    // g is neither 0 nor 1: its ((p-1)/2)-th power is not one
    if g == 1 {
        lemma1_pow(((pn - 1) / 2) as nat);
        lemma_prime_part(pn, 2);
        lemma_mod_small(1, pi);
    }
    let gu = g as u64;
    assert(crate::modular::passes_root_test(gu, p));
}

/// If `g^a` and `g^b` are one modulo `p`, so is `g^gcd(a, b)`.
pub proof fn lemma_pow_gcd_one(g: int, a: nat, b: nat, p: int)
    requires
        p > 1,
        pow(g, a) % p == 1,
        pow(g, b) % p == 1,
    ensures
        pow(g, crate::number_theory::gcd(a, b)) % p == 1,
    decreases b,
{
    if b > 0 {
        // a == b q + r, so g^a == (g^b)^q g^r == g^r
        lemma_fundamental_div_mod(a as int, b as int);
        let q = a / b;
        let r = a % b;
        assert(a == b * q + r);
        lemma_pow_adds(g, b * q, r);
        lemma_pow_multiplies(g, b, q);
        lemma_pow_mod_base(pow(g, b), q, p);
        lemma1_pow(q);
        lemma_mod_small(1, p);
        lemma_mod_mul_both(pow(g, b * q), pow(g, r), p);
        lemma_mod_range(pow(g, r), p);
        lemma_mod_small(pow(g, r) % p, p);
        assert(pow(g, r) % p == 1);
        lemma_pow_gcd_one(g, b, r, p);
    }
}

/// Every `n >= 2` has a prime divisor `q <= n`.
pub proof fn lemma_has_prime_divisor(n: nat)
    requires
        n >= 2,
    ensures
        exists|q: nat| is_prime(q) && q <= n && #[trigger] (n % q) == 0,
    decreases n,
{
    if is_prime(n) {
        assert(n % n == 0) by {
            vstd::arithmetic::div_mod::lemma_mod_self_0(n as int);
        }
    } else {
        let d = choose|d: nat| 1 < d < n && #[trigger] (n % d) == 0;
        lemma_has_prime_divisor(d);
        let q = choose|q: nat| is_prime(q) && q <= d && #[trigger] (d % q) == 0;
        crate::number_theory::lemma_divides_trans(q, d, n);
        assert(n % q == 0);
    }
}

/// A residue passing the primitive-root test modulo a prime `p` has order
/// exactly `p - 1`: no power `g^k` with `0 < k < p - 1` is one.
pub proof fn lemma_test_gives_full_order(g: u64, p: u64, k: nat)
    requires
        is_prime(p as nat),
        2 <= g < p,
        crate::modular::passes_root_test(g, p),
        0 < k < p - 1,
    ensures
        pow(g as int, k) % (p as int) != 1,
{
    let pi = p as int;
    let n = (p - 1) as nat;
    if pow(g as int, k) % pi == 1 {
        lemma_mod_small(g as int, pi);
        crate::fermat::lemma_fermat_little(g as nat, p as nat);
        let d = crate::number_theory::gcd(k, n);
        lemma_pow_gcd_one(g as int, k, n, pi);
        crate::number_theory::lemma_gcd_pos(k, n);
        crate::number_theory::lemma_gcd_divides(k, n);
        crate::number_theory::lemma_mod_is_zero_le(k, d);
        // c == (p - 1) / d >= 2 has a prime divisor q, and d divides (p - 1) / q
        lemma_fundamental_div_mod(n as int, d as int);
        let c = n / d;
        assert(n == d * c);
        assert(c >= 2) by (nonlinear_arith)
            requires
                n == d * c,
                d <= k,
                k < n,
                d > 0,
        ;
        lemma_has_prime_divisor(c);
        let q = choose|q: nat| is_prime(q) && q <= c && #[trigger] (c % q) == 0;
        lemma_fundamental_div_mod(c as int, q as int);
        let t = c / q;
        assert(n == q * (d * t)) by (nonlinear_arith)
            requires
                n == d * c,
                c == q * t,
        ;
        vstd::arithmetic::div_mod::lemma_mod_multiples_basic((d * t) as int, q as int);
        vstd::arithmetic::div_mod::lemma_div_multiples_vanish((d * t) as int, q as int);
        assert(q <= n) by (nonlinear_arith)
            requires
                q <= c,
                n == d * c,
                d >= 1,
        ;
        let qu = q as u64;
        assert(((p - 1) as u64 % qu) == 0);
        assert(((p - 1) as u64 / qu) as nat == d * t);
        // g^((p - 1) / q) == (g^d)^t == 1
        lemma_pow_mod_pow(g as int, d, t, pi);
        lemma_pow_mod_base(pow(g as int, d), t, pi);
        lemma1_pow(t);
        lemma_mod_small(1, pi);
        assert(pow(g as int, ((p - 1) as u64 / qu) as nat) % pi == 1);
    }
}

/// Modulo a prime, a power of a nonzero residue is nonzero.
pub proof fn lemma_pow_nonzero(p: nat, x: int, k: nat)
    requires
        is_prime(p),
        x % (p as int) != 0,
    ensures
        pow(x, k) % (p as int) != 0,
    decreases k,
{
    lemma_pow_succ(x, 0);
    if k == 0 {
        lemma_mod_small(1, p as int);
    } else {
        let k1 = (k - 1) as nat;
        lemma_pow_nonzero(p, x, k1);
        lemma_pow_succ(x, k1);
        if pow(x, k) % (p as int) == 0 {
            lemma_euclid(p, x, pow(x, k1));
        }
    }
}

} // verus!
