//! Greatest common divisors, Bezout coefficients, divisibility and primality.

use vstd::arithmetic::div_mod::*;
use vstd::arithmetic::mul::*;
use vstd::prelude::*;

verus! {

/// Euclid's greatest common divisor.
pub open spec fn gcd(a: nat, b: nat) -> nat
    decreases b,
{
    if b == 0 {
        a
    } else {
        gcd(b, a % b)
    }
}

/// Extended Euclid: `(g, x, y)` with `a*x + b*y == g == gcd(a, b)`.
pub open spec fn ext_gcd(a: nat, b: nat) -> (nat, int, int)
    decreases b,
{
    if b == 0 {
        (a, 1, 0)
    } else {
        let r = ext_gcd(b, a % b);
        (r.0, r.2, r.1 - (a / b) as int * r.2)
    }
}

/// `d` divides `x`.
pub open spec fn divides(d: int, x: int) -> bool {
    exists|k: int| #[trigger] (k * d) == x
}

/// `p` is prime: greater than one with no divisor strictly between one and itself.
pub open spec fn is_prime(p: nat) -> bool {
    &&& p > 1
    &&& forall|d: nat| 1 < d < p ==> #[trigger] (p % d) != 0
}

/// Larger of an integer and one.
pub open spec fn max1(a: int) -> int {
    if a >= 1 {
        a
    } else {
        1
    }
}

/// Bezout's identity and coefficient bounds for the extended Euclidean recursion.
pub proof fn lemma_ext_gcd(a: nat, b: nat)
    ensures
        ext_gcd(a, b).0 == gcd(a, b),
        a * ext_gcd(a, b).1 + b * ext_gcd(a, b).2 == ext_gcd(a, b).0,
        -max1(b as int) <= ext_gcd(a, b).1 <= max1(b as int),
        -max1(a as int) <= ext_gcd(a, b).2 <= max1(a as int),
        ext_gcd(a, b).1 * ext_gcd(a, b).2 <= 0,
        b == 0 ==> ext_gcd(a, b).1 == 1 && ext_gcd(a, b).2 == 0,
    decreases b,
{
    if b > 0 {
        let r = a % b;
        let q = a / b;
        lemma_ext_gcd(b, r);
        let (g, x1, y1) = ext_gcd(b, r);
        lemma_fundamental_div_mod(a as int, b as int);
        lemma_mod_bound(a as int, b as int);
        assert(a == b * q + r);
        let y = x1 - q * y1;
        // Bezout: a*y1 + b*(x1 - q*y1) == b*x1 + r*y1
        assert(a * y1 + b * y == b * x1 + r * y1) by (nonlinear_arith)
            requires
                a == b * q + r,
                y == x1 - q * y1,
        ;
        // sign: y1 * (x1 - q*y1) = x1*y1 - q*y1*y1 <= 0
        assert(y1 * y <= 0) by (nonlinear_arith)
            requires
                x1 * y1 <= 0,
                y == x1 - q * y1,
                q >= 0,
        ;
        // bound on y
        if r == 0 {
            assert(x1 == 1 && y1 == 0);
            assert(q * y1 == 0) by (nonlinear_arith)
                requires
                    y1 == 0,
            ;
            assert(y == 1);
        } else {
            assert(-max1(r as int) <= x1 <= max1(r as int));
            assert(max1(r as int) == r);
            assert(max1(b as int) == b);
            assert(-(a as int) <= y <= a) by (nonlinear_arith)
                requires
                    -(r as int) <= x1 <= r,
                    -(b as int) <= y1 <= b,
                    x1 * y1 <= 0,
                    y == x1 - q * y1,
                    q >= 0,
                    a == b * q + r,
            ;
        }
    }
}

/// The gcd divides both of its arguments.
pub proof fn lemma_gcd_divides(a: nat, b: nat)
    ensures
        gcd(a, b) > 0 ==> a % gcd(a, b) == 0 && b % gcd(a, b) == 0,
        gcd(a, b) == 0 ==> a == 0 && b == 0,
    decreases b,
{
    if b == 0 {
        if a > 0 {
            lemma_mod_self_0(a as int);
            lemma_small_mod(0, a);
        }
    } else {
        let r = a % b;
        lemma_gcd_divides(b, r);
        let g = gcd(b, r);
        lemma_mod_bound(a as int, b as int);
        if g > 0 {
            lemma_fundamental_div_mod(a as int, b as int);
            lemma_mod_linear_zero(b as int, r as int, (a / b) as int, g as int);
            assert(b * (a / b) + r == a);
        }
    }
}

/// If `g` divides `x` and `y` then it divides `x*k + y`.
pub proof fn lemma_mod_linear_zero(x: int, y: int, k: int, g: int)
    requires
        g > 0,
        x % g == 0,
        y % g == 0,
    ensures
        (x * k + y) % g == 0,
{
    lemma_mul_mod_noop_left(x, k, g);
    assert((x % g) * k == 0) by (nonlinear_arith)
        requires
            x % g == 0,
    ;
    lemma_small_mod(0, g as nat);
    lemma_add_mod_noop(x * k, y, g);
}

/// The gcd of a positive number with anything is positive.
pub proof fn lemma_gcd_pos(a: nat, b: nat)
    requires
        b > 0,
    ensures
        gcd(a, b) > 0,
{
    lemma_gcd_divides(a, b);
}

/// A residue `a` has an inverse modulo `m` only if `gcd(a, m) == 1`.
pub proof fn lemma_inverse_needs_coprime(a: nat, m: nat, v: int)
    requires
        m > 1,
        (a * v) % (m as int) == 1,
    ensures
        gcd(a, m) == 1,
{
    lemma_gcd_divides(a, m);
    lemma_gcd_pos(a, m);
    let g = gcd(a, m) as int;
    lemma_fundamental_div_mod(a * v, m as int);
    let q = (a * v) / (m as int);
    assert(a * v == m * q + 1);
    // g | a*v and g | m*q, hence g | 1
    assert((a * v) % g == 0) by {
        lemma_mul_mod_noop_left(a as int, v, g);
        assert((a as int % g) * v == 0);
        lemma_small_mod(0, g as nat);
    }
    assert((m * q) % g == 0) by {
        lemma_mul_mod_noop_left(m as int, q, g);
        assert((m as int % g) * q == 0);
        lemma_small_mod(0, g as nat);
    }
    assert(1int % g == 0) by {
        lemma_sub_mod_noop(a * v, m * q, g);
        assert(a * v - m * q == 1);
        lemma_small_mod(0, g as nat);
    }
    if g > 1 {
        lemma_small_mod(1, g as nat);
    }
}

/// Euclid's lemma: a prime dividing a product divides one of the factors.
pub proof fn lemma_euclid(p: nat, a: int, b: int)
    requires
        is_prime(p),
        (a * b) % (p as int) == 0,
    ensures
        a % (p as int) == 0 || b % (p as int) == 0,
{
    let pi = p as int;
    let ar = (a % pi) as nat;
    lemma_mod_bound(a, pi);
    if ar != 0 {
        // gcd(ar, p) divides p and is below p, so it is 1
        lemma_gcd_divides(ar, p);
        lemma_gcd_pos(ar, p);
        let g = gcd(ar, p);
        assert(g <= ar) by {
            lemma_mod_is_zero_le(ar, g);
        }
        if g > 1 {
            assert(p % g != 0);
            assert(false);
        }
        assert(g == 1);
        lemma_ext_gcd(ar, p);
        let (gg, x, y) = ext_gcd(ar, p);
        // ar*x + p*y == 1, so b == (a*b)*x - p*(...) is a multiple of p
        assert(ar * x + p * y == 1);
        lemma_mul_mod_noop_left(a, b, pi);
        assert((ar * b) % pi == 0);
        lemma_fundamental_div_mod(ar * b, pi);
        let k = (ar * b) / pi;
        assert(ar * b == pi * k);
        assert(b == (pi * k) * x + pi * (y * b)) by (nonlinear_arith)
            requires
                ar * x + p * y == 1,
                ar * b == pi * k,
                pi == p,
        ;
        assert(b == (k * x + y * b) * pi) by (nonlinear_arith)
            requires
                b == (pi * k) * x + pi * (y * b),
        ;
        lemma_mod_multiples_basic(k * x + y * b, pi);
    }
}

/// A positive multiple of `g` is at least `g`.
pub proof fn lemma_mod_is_zero_le(x: nat, g: nat)
    requires
        x > 0,
        g > 0,
        x % g == 0,
    ensures
        g <= x,
{
    lemma_fundamental_div_mod(x as int, g as int);
    let q = x / g;
    assert(x == g * q);
    if q == 0 {
        assert(g * q == 0) by (nonlinear_arith)
            requires
                q == 0,
        ;
    } else {
        assert(g * q >= g) by (nonlinear_arith)
            requires
                q >= 1,
                g > 0,
        ;
    }
}

/// A number greater than one whose divisors below `d` are trivial, with `d*d > x`, is prime.
pub proof fn lemma_prime_if_no_small_divisor(x: nat, d: nat)
    requires
        x > 1,
        d * d > x,
        forall|e: nat| 2 <= e < d ==> #[trigger] (x % e) != 0,
    ensures
        is_prime(x),
{
    assert forall|e: nat| 1 < e < x implies #[trigger] (x % e) != 0 by {
        if x % e == 0 {
            lemma_fundamental_div_mod(x as int, e as int);
            let f = x / e;
            assert(x == e * f);
            assert(f >= 1) by {
                if f == 0 {
                    assert(e * f == 0) by (nonlinear_arith)
                        requires
                            f == 0,
                    ;
                }
            }
            // f also divides x
            assert(x % f == 0) by {
                lemma_mod_multiples_basic(e as int, f as int);
                assert(e * f == f * e) by (nonlinear_arith);
            }
            if e < d {
            } else {
                // then f < d, and f > 1 since e < x
                assert(f < d) by (nonlinear_arith)
                    requires
                        x == e * f,
                        e >= d,
                        d * d > x,
                        d >= 0,
                        f >= 1,
                ;
                assert(f > 1) by {
                    if f == 1 {
                        assert(e * f == e) by (nonlinear_arith)
                            requires
                                f == 1,
                        ;
                    }
                }
                assert(f >= 2);
                assert(x % f != 0);
            }
        }
    }
}

/// Divisibility is transitive.
pub proof fn lemma_divides_trans(a: nat, b: nat, c: nat)
    requires
        a > 0,
        b > 0,
        b % a == 0,
        c % b == 0,
    ensures
        c % a == 0,
{
    lemma_fundamental_div_mod(c as int, b as int);
    lemma_fundamental_div_mod(b as int, a as int);
    let k = c / b;
    let j = b / a;
    assert(c == b * k);
    assert(b == a * j);
    assert(c == (j * k) * a) by (nonlinear_arith)
        requires
            c == b * k,
            b == a * j,
    ;
    lemma_mod_multiples_basic((j * k) as int, a as int);
}

} // verus!
