//! Roots of polynomials modulo a prime, and what they give for quadratic
//! residues: a polynomial of degree `d` has at most `d` roots, so some
//! residue below `p` is not a square, and `1` has only the square roots `±1`.

use crate::arith::{lemma_mod_mul_both, lemma_mod_small, lemma_mod_sub_both};
use crate::fermat::lemma_fermat_little;
use crate::number_theory::{is_prime, lemma_euclid};
use vstd::arithmetic::power::{lemma_pow_adds, pow};
use vstd::prelude::*;

verus! {

/// The value at `x` of the polynomial with coefficients `a`, constant term first.
pub open spec fn poly_value(a: Seq<int>, x: int) -> int
    decreases a.len(),
{
    if a.len() == 0 {
        0
    } else {
        a[0] + x * poly_value(a.drop_first(), x)
    }
}

/// The coefficients of the quotient of `a` by `x - r` (synthetic division).
pub open spec fn div_linear(a: Seq<int>, r: int) -> Seq<int>
    decreases a.len(),
{
    if a.len() <= 1 {
        Seq::empty()
    } else {
        seq![poly_value(a.drop_first(), r)] + div_linear(a.drop_first(), r)
    }
}

/// A constant polynomial has its constant term as value everywhere.
proof fn lemma_poly_value_constant(a: Seq<int>, x: int)
    requires
        a.len() == 1,
    ensures
        poly_value(a, x) == a[0],
{
    assert(a.drop_first().len() == 0);
    assert(poly_value(a.drop_first(), x) == 0);
}

/// `a(x) - a(r) == (x - r) * q(x)` for the quotient `q` of `a` by `x - r`,
/// which is one degree lower and has the same leading coefficient.
proof fn lemma_div_linear(a: Seq<int>, r: int, x: int)
    ensures
        poly_value(a, x) - poly_value(a, r) == (x - r) * poly_value(div_linear(a, r), x),
        a.len() >= 1 ==> div_linear(a, r).len() == a.len() - 1,
        a.len() >= 2 ==> div_linear(a, r).last() == a.last(),
    decreases a.len(),
{
    if a.len() >= 2 {
        let rest = a.drop_first();
        lemma_div_linear(rest, r, x);
        let q = div_linear(a, r);
        let q_rest = div_linear(rest, r);
        assert(q.drop_first() =~= q_rest);
        let ax = poly_value(rest, x);
        let ar = poly_value(rest, r);
        let qx = poly_value(q_rest, x);
        assert(poly_value(q, x) == ar + x * qx);
        assert(x * ax - r * ar == (x - r) * (ar + x * qx)) by (nonlinear_arith)
            requires
                ax - ar == (x - r) * qx,
        ;
        if rest.len() == 1 {
            lemma_poly_value_constant(rest, r);
        }
    } else if a.len() == 1 {
        lemma_poly_value_constant(a, x);
        lemma_poly_value_constant(a, r);
    }
}

/// A residue strictly between `-p` and `p` other than zero is not divisible by `p`.
proof fn lemma_small_nonzero(d: int, p: int)
    requires
        p > 0,
        -p < d < p,
        d != 0,
    ensures
        d % p != 0,
{
    if d > 0 {
        lemma_mod_small(d, p);
    } else {
        vstd::arithmetic::div_mod::lemma_fundamental_div_mod_converse(d, p, -1, d + p);
    }
}

/// Lagrange: a polynomial whose leading coefficient is not divisible by the
/// prime `p` has, among as many residues as its number of coefficients that
/// are distinct modulo `p`, at least one that is not a root.
pub proof fn lemma_root_bound(a: Seq<int>, p: nat, roots: Seq<int>)
    requires
        is_prime(p),
        a.len() >= 1,
        a.last() % (p as int) != 0,
        roots.len() == a.len(),
        forall|i: int, j: int|
            0 <= i < j < roots.len() ==> (#[trigger] roots[i] - #[trigger] roots[j]) % (p as int)
                != 0,
    ensures
        exists|i: int| 0 <= i < roots.len() && #[trigger] poly_value(a, roots[i]) % (p as int) != 0,
    decreases a.len(),
{
    let pi = p as int;
    if a.len() == 1 {
        lemma_poly_value_constant(a, roots[0]);
    } else {
        if forall|i: int| 0 <= i < roots.len() ==> #[trigger] poly_value(a, roots[i]) % pi == 0 {
            let r = roots.last();
            let q = div_linear(a, r);
            let rest = roots.drop_last();
            lemma_div_linear(a, r, 0);
            assert forall|i: int, j: int| 0 <= i < j < rest.len() implies (#[trigger] rest[i]
                - #[trigger] rest[j]) % pi != 0 by {
                assert(rest[i] == roots[i] && rest[j] == roots[j]);
            }
            lemma_root_bound(q, p, rest);
            let i = choose|i: int| 0 <= i < rest.len() && #[trigger] poly_value(q, rest[i]) % pi != 0;
            let s = rest[i];
            assert(s == roots[i]);
            lemma_div_linear(a, r, s);
            assert(poly_value(a, s) % pi == 0);
            assert(poly_value(a, r) % pi == 0);
            lemma_mod_sub_both(poly_value(a, s), poly_value(a, r), pi);
            assert(0int % pi == 0);
            assert(((s - r) * poly_value(q, s)) % pi == 0);
            lemma_euclid(p, s - r, poly_value(q, s));
            assert((roots[i] - roots[roots.len() - 1]) % pi != 0);
            assert(false);
        }
    }
}

/// The coefficients of `x^h`.
pub open spec fn monomial(h: nat) -> Seq<int> {
    Seq::new(h + 1, |i: int| if i == h { 1int } else { 0int })
}

/// The coefficients of `x^h - 1`.
pub open spec fn power_minus_one(h: nat) -> Seq<int> {
    Seq::new(h + 1, |i: int| if i == h { 1int } else if i == 0 { -1int } else { 0int })
}

proof fn lemma_monomial_value(h: nat, x: int)
    ensures
        poly_value(monomial(h), x) == pow(x, h),
    decreases h,
{
    crate::arith::lemma_pow_succ(x, 0);
    if h == 0 {
        lemma_poly_value_constant(monomial(0), x);
    } else {
        let h1 = (h - 1) as nat;
        lemma_monomial_value(h1, x);
        assert(monomial(h).drop_first() =~= monomial(h1));
        crate::arith::lemma_pow_succ(x, h1);
    }
}

proof fn lemma_power_minus_one_value(h: nat, x: int)
    requires
        h >= 1,
    ensures
        poly_value(power_minus_one(h), x) == pow(x, h) - 1,
{
    let h1 = (h - 1) as nat;
    lemma_monomial_value(h1, x);
    assert(power_minus_one(h).drop_first() =~= monomial(h1));
    crate::arith::lemma_pow_succ(x, h1);
}

/// Modulo a prime, the only square roots of one are `1` and `p - 1`.
pub proof fn lemma_sqrt_of_one(p: nat, y: int)
    requires
        is_prime(p),
        0 <= y < p,
        (y * y) % (p as int) == 1,
    ensures
        y == 1 || y == p - 1,
{
    let pi = p as int;
    assert((y - 1) * (y + 1) == y * y - 1) by (nonlinear_arith);
    lemma_mod_sub_both(y * y, 1, pi);
    lemma_mod_small(1, pi);
    assert(0int % pi == 0);
    lemma_euclid(p, y - 1, y + 1);
    if (y - 1) % pi == 0 {
        if y != 1 {
            lemma_small_nonzero(y - 1, pi);
        }
    } else {
        if y + 1 != pi {
            lemma_small_nonzero(y + 1, pi);
        }
    }
}

/// Modulo a prime `p`, for `1 <= d <= p - 2` some `x` with `2 <= x <= d + 1`
/// is not a root of `x^d - 1`.
pub proof fn lemma_non_root_exists(p: nat, d: nat)
    requires
        is_prime(p),
        1 <= d <= p - 2,
    ensures
        exists|x: int| 2 <= x <= d + 1 && #[trigger] pow(x, d) % (p as int) != 1,
{
    let pi = p as int;
    let a = power_minus_one(d);
    let roots = Seq::new(d + 1, |i: int| i + 1);
    assert(a.last() == 1);
    lemma_mod_small(1, pi);
    assert forall|i: int, j: int| 0 <= i < j < roots.len() implies (#[trigger] roots[i]
        - #[trigger] roots[j]) % pi != 0 by {
        lemma_small_nonzero(roots[i] - roots[j], pi);
    }
    lemma_root_bound(a, p, roots);
    let i = choose|i: int| 0 <= i < roots.len() && #[trigger] poly_value(a, roots[i]) % pi != 0;
    let x = roots[i];
    lemma_power_minus_one_value(d, x);
    if x == 1 {
        vstd::arithmetic::power::lemma1_pow(d);
        assert(0int % pi == 0);
    }
    if pow(x, d) % pi == 1 {
        lemma_mod_sub_both(pow(x, d), 1, pi);
        assert(0int % pi == 0);
    }
    assert(pow(x, d) % pi != 1);
}

/// Modulo an odd prime `p` some residue `z` with `2 <= z < p` is a quadratic
/// non-residue: `z^((p - 1) / 2) == p - 1`.
pub proof fn lemma_nonresidue_exists(p: nat)
    requires
        is_prime(p),
        p >= 3,
    ensures
        exists|z: int| 2 <= z < p && #[trigger] pow(z, ((p - 1) / 2) as nat) % (p as int) == p - 1,
{
    let pi = p as int;
    let h = ((p - 1) / 2) as nat;
    assert(p % 2 != 0);
    assert(2 * h == p - 1);
    lemma_non_root_exists(p, h);
    let z = choose|x: int| 2 <= x <= h + 1 && #[trigger] pow(x, h) % pi != 1;
    let y = pow(z, h) % pi;
    lemma_mod_small(z, pi);
    lemma_fermat_little(z as nat, p);
    lemma_pow_adds(z, h, h);
    assert((h + h) as nat == (p - 1) as nat);
    lemma_mod_mul_both(pow(z, h), pow(z, h), pi);
    crate::arith::lemma_mod_range(pow(z, h), pi);
    lemma_sqrt_of_one(p, y);
    assert(pow(z, h) % pi == p - 1);
}

} // verus!
