//! Galois automorphisms `f(x) -> f(x^k)` of `Z_q[x]/(x^n + 1)`, the coefficient
//! permutation behind slot rotation and conjugation.

use crate::modular::{mod_add, mod_sub};
use crate::poly::Poly;
use crate::rns::{RnsBasis, RnsPoly};
use vstd::prelude::*;

verus! {

/// The part of `c[i] * x^(k*i)` that lands on `x^t` once reduced modulo
/// `x^n + 1`: `x^(k*i) = x^e` with `e = k*i mod 2n`, and `x^e = -x^(e-n)` when `e >= n`.
pub open spec fn auto_contrib(c: Seq<u64>, k: int, n: int, t: int, i: int) -> int {
    let e = (k * i) % (2 * n);
    if e == t {
        c[i] as int
    } else if e == t + n {
        -(c[i] as int)
    } else {
        0
    }
}

/// Sum of the contributions of the first `m` coefficients to `x^t`.
pub open spec fn auto_sum(c: Seq<u64>, k: int, n: int, t: int, m: nat) -> int
    decreases m,
{
    if m == 0 {
        0
    } else {
        auto_sum(c, k, n, t, (m - 1) as nat) + auto_contrib(c, k, n, t, m - 1)
    }
}

/// Coefficients of `f(x^k) mod (x^n + 1, q)` for `f` with coefficients `c`.
pub open spec fn automorphism_spec(c: Seq<u64>, k: int, n: int, q: int) -> Seq<u64> {
    Seq::new(n as nat, |t: int| (auto_sum(c, k, n, t, n as nat) % q) as u64)
}

/// `f(x^k)` for one limb.
fn automorphism_limb(p: &Poly, galois_elt: u64, n: usize) -> (r: Poly)
    requires
        p.wf(),
        p.coeffs@.len() == n,
        n >= 1,
        2 * n <= usize::MAX,
    ensures
        r.coeffs@ == automorphism_spec(p.coeffs@, galois_elt as int, n as int, p.modulus as int),
        r.modulus == p.modulus,
        r.domain == p.domain,
        r.wf(),
{
    let q = p.modulus;
    let two_n = 2 * (n as u128);
    let ghost c = p.coeffs@;
    let ghost k = galois_elt as int;
    let mut acc: Vec<u64> = Vec::with_capacity(n);
    let mut z = 0usize;
    while z < n
        invariant
            z <= n,
            acc@.len() == z,
            forall|t: int| 0 <= t < z ==> #[trigger] acc@[t] == 0,
        decreases n - z,
    {
        acc.push(0);
        z += 1;
    }
    proof {
        vstd::arithmetic::div_mod::lemma_small_mod(0, q as nat);
    }
    let mut i = 0usize;
    while i < n
        invariant
            p.wf(),
            c == p.coeffs@,
            c.len() == n,
            q == p.modulus,
            q > 0,
            n >= 1,
            2 * n <= usize::MAX,
            two_n == 2 * n,
            k == galois_elt,
            i <= n,
            acc@.len() == n,
            forall|t: int|
                0 <= t < n ==> #[trigger] acc@[t] == (auto_sum(c, k, n as int, t, i as nat) % (
                q as int)) as u64,
            forall|t: int| 0 <= t < n ==> #[trigger] acc@[t] < q,
        decreases n - i,
    {
        proof {
            assert(galois_elt * i <= 0xffff_ffff_ffff_ffffu64 * 0xffff_ffff_ffff_ffffu64) by (nonlinear_arith)
                requires
                    galois_elt <= 0xffff_ffff_ffff_ffffu64,
                    i <= 0xffff_ffff_ffff_ffffu64,
            ;
        }
        let prod = galois_elt as u128 * i as u128;
        let e128 = prod % two_n;
        proof {
            assert(prod as int == galois_elt * i);
            assert(two_n as int == 2 * n);
            crate::arith::lemma_mod_range(galois_elt * i, 2 * n);
            assert(e128 as int == (galois_elt * i) % (2 * n as int));
            assert(e128 < two_n);
        }
        let e = e128 as usize;
        let ci = p.coeffs[i];
        proof {
            assert(ci < q);
            assert(e as int == (k * i) % (2 * n as int));
        }
        let ghost before = acc@;
        if e < n {
            let v = mod_add(acc[e], ci, q);
            acc.set(e, v);
        } else {
            let v = mod_sub(acc[e - n], ci, q);
            acc.set(e - n, v);
        }
        proof {
            assert forall|t: int| 0 <= t < n implies #[trigger] acc@[t] == (auto_sum(
                c,
                k,
                n as int,
                t,
                (i + 1) as nat,
            ) % (q as int)) as u64 && acc@[t] < q by {
                let s = auto_sum(c, k, n as int, t, i as nat);
                assert(auto_sum(c, k, n as int, t, (i + 1) as nat) == s + auto_contrib(
                    c,
                    k,
                    n as int,
                    t,
                    i as int,
                ));
                assert(before[t] == (s % (q as int)) as u64);
                crate::arith::lemma_mod_range(s, q as int);
                if (e < n && t == e) {
                    crate::arith::lemma_mod_add_both(s, ci as int, q as int);
                    crate::arith::lemma_mod_range(s + ci, q as int);
                } else if (e >= n && t == e - n) {
                    crate::arith::lemma_mod_sub_both(s, ci as int, q as int);
                    crate::arith::lemma_mod_range(s - ci, q as int);
                } else {
                    assert(auto_contrib(c, k, n as int, t, i as int) == 0);
                }
            }
        }
        i += 1;
    }
    proof {
        assert(acc@ =~= automorphism_spec(c, k, n as int, q as int));
    }
    Poly { coeffs: acc, modulus: q, domain: p.domain }
}

/// Apply the automorphism `f(x) -> f(x^galois_elt)` to every limb: coefficient
/// `i` moves to `galois_elt * i mod 2n`, negated when that index is at least `n`
/// (as `x^n == -1`), and contributions landing on one index add up.
pub fn apply_automorphism(poly: &RnsPoly, galois_elt: u64, n: usize) -> (r: RnsPoly)
    requires
        poly.wf(),
        forall|i: int| 0 <= i < poly.limbs@.len() ==> (#[trigger] poly.limbs@[i]).coeffs@.len() == n,
        n >= 1,
        2 * n <= usize::MAX,
    ensures
        r.basis.moduli@ == poly.basis.moduli@,
        r.limbs@.len() == poly.limbs@.len(),
        r.wf(),
        forall|i: int|
            0 <= i < r.limbs@.len() ==> {
                let l = #[trigger] r.limbs@[i];
                let o = poly.limbs@[i];
                &&& l.coeffs@ == automorphism_spec(o.coeffs@, galois_elt as int, n as int, o.modulus as int)
                &&& l.modulus == o.modulus
                &&& l.domain == o.domain
            },
{
    let mut limbs: Vec<Poly> = Vec::new();
    let mut i = 0usize;
    while i < poly.limbs.len()
        invariant
            poly.wf(),
            forall|m: int| 0 <= m < poly.limbs@.len() ==> (#[trigger] poly.limbs@[m]).coeffs@.len() == n,
            n >= 1,
            2 * n <= usize::MAX,
            i <= poly.limbs@.len(),
            limbs@.len() == i,
            forall|m: int|
                0 <= m < i ==> {
                    let l = #[trigger] limbs@[m];
                    let o = poly.limbs@[m];
                    &&& l.coeffs@ == automorphism_spec(o.coeffs@, galois_elt as int, n as int, o.modulus as int)
                    &&& l.modulus == o.modulus
                    &&& l.domain == o.domain
                    &&& l.wf()
                },
        decreases poly.limbs@.len() - i,
    {
        proof {
            let _l = poly.limbs@[i as int];
        }
        limbs.push(automorphism_limb(&poly.limbs[i], galois_elt, n));
        i += 1;
    }
    proof {
        if limbs@.len() > 0 {
            let _l0 = poly.limbs@[0];
        }
    }
    RnsPoly { limbs, basis: poly.basis.duplicate() }
}

} // verus!
