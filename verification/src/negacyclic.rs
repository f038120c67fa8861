//! Multiplication in `Z_q[x] / (x^n + 1)` and its interaction with evaluation
//! at points `zeta` with `zeta^n == -1`.

use crate::arith::{lemma_mod_add_both, lemma_mod_mul_both, lemma_mod_range, lemma_mod_small};
use crate::ntt_eval::eval_poly;
use crate::sums::{
    lemma_sum_congruent, lemma_sum_ext, lemma_sum_first, lemma_sum_scale, lemma_sum_split,
    lemma_sum_swap, sum_f,
};
use vstd::arithmetic::power::pow;
use vstd::prelude::*;

verus! {

/// Multiplication by `x` modulo `x^n + 1`: every coefficient moves up one place
/// and the top one wraps around to the constant term, negated modulo `q`.
pub open spec fn mul_by_x(b: Seq<u64>, q: int) -> Seq<u64> {
    Seq::new(
        b.len(),
        |k: int|
            if k == 0 {
                ((-(b[b.len() - 1] as int)) % q) as u64
            } else {
                b[k - 1]
            },
    )
}

/// Multiplication by `x^i` modulo `x^n + 1`.
pub open spec fn mul_by_x_pow(b: Seq<u64>, i: nat, q: int) -> Seq<u64>
    decreases i,
{
    if i == 0 {
        b
    } else {
        mul_by_x(mul_by_x_pow(b, (i - 1) as nat, q), q)
    }
}

/// The product `a * b` in `Z_q[x]/(x^n + 1)`: coefficient `k` is that of
/// `sum_i a_i * (x^i * b)`, reduced modulo `q`.
pub open spec fn negacyclic_mul(a: Seq<u64>, b: Seq<u64>, q: int) -> Seq<u64> {
    Seq::new(
        a.len(),
        |k: int| (sum_f(|i: int| a[i] * mul_by_x_pow(b, i as nat, q)[k], a.len()) % q) as u64,
    )
}

/// Multiplying by `x^i` keeps the length.
proof fn lemma_mul_by_x_pow_len(b: Seq<u64>, i: nat, q: int)
    ensures
        mul_by_x_pow(b, i, q).len() == b.len(),
    decreases i,
{
    if i > 0 {
        lemma_mul_by_x_pow_len(b, (i - 1) as nat, q);
    }
}

/// Evaluating `x * b` at a point with `zeta^n == -1` multiplies the value by `zeta`.
proof fn lemma_eval_mul_by_x(b: Seq<u64>, zeta: int, q: int)
    requires
        crate::ntt_spec::modulus_ok(q),
        b.len() > 0,
        pow(zeta, b.len()) % q == q - 1,
    ensures
        eval_poly(mul_by_x(b, q), zeta) % q == (zeta * eval_poly(b, zeta)) % q,
{
    let n = b.len();
    let n1 = (n - 1) as nat;
    let c = mul_by_x(b, q);
    let fc = |j: int| c[j] * pow(zeta, j as nat);
    let fb = |j: int| b[j] * pow(zeta, j as nat);
    // eval(c) = c[0] + sum_{m < n-1} b[m] * zeta^(m+1)
    lemma_sum_first(fc, n);
    let tail = |m: int| b[m] * pow(zeta, (m + 1) as nat);
    lemma_sum_ext(|m: int| fc(m + 1), tail, n1);
    // zeta * eval(b) = sum_{m < n} b[m] * zeta^(m+1) = sum_{m < n-1} ... + b[n-1] * zeta^n
    lemma_sum_scale(fb, zeta, n);
    let sb = |m: int| zeta * fb(m);
    assert forall|m: int| 0 <= m < n implies #[trigger] sb(m) == tail(m) by {
        crate::arith::lemma_pow_succ(zeta, m as nat);
        assert(zeta * (b[m] * pow(zeta, m as nat)) == b[m] * (zeta * pow(zeta, m as nat)))
            by (nonlinear_arith);
    }
    lemma_sum_ext(sb, tail, n);
    assert(sum_f(tail, n) == sum_f(tail, n1) + tail(n1 as int));
    // the wrapped term: c[0] == -b[n-1] == b[n-1] * zeta^n (mod q)
    crate::arith::lemma_pow_succ(zeta, 0);
    let last = b[n1 as int] as int;
    assert(fc(0) == c[0] * 1);
    lemma_mod_range(-last, q);
    crate::ntt_spec::lemma_cast_mod(-last, q);
    assert(tail(n1 as int) == last * pow(zeta, n));
    lemma_mod_mul_both(last, pow(zeta, n), q);
    lemma_mod_mul_both(last, -1, q);
    crate::arith::lemma_mod_add_multiple(-1, 1, q);
    lemma_mod_small(q - 1, q);
    assert(last * (-1) == -last);
    assert((last * pow(zeta, n)) % q == (-last) % q);
    lemma_mod_add_both(c[0] as int, sum_f(tail, n1), q);
    lemma_mod_add_both(last * pow(zeta, n), sum_f(tail, n1), q);
    crate::arith::lemma_mod_idem(-last, q);
}

/// Evaluating `x^i * b` at a point with `zeta^n == -1` multiplies the value by `zeta^i`.
proof fn lemma_eval_mul_by_x_pow(b: Seq<u64>, i: nat, zeta: int, q: int)
    requires
        crate::ntt_spec::modulus_ok(q),
        b.len() > 0,
        pow(zeta, b.len()) % q == q - 1,
    ensures
        eval_poly(mul_by_x_pow(b, i, q), zeta) % q == (pow(zeta, i) * eval_poly(b, zeta)) % q,
    decreases i,
{
    crate::arith::lemma_pow_succ(zeta, 0);
    if i == 0 {
        assert(1 * eval_poly(b, zeta) == eval_poly(b, zeta));
    } else {
        let i1 = (i - 1) as nat;
        let y = mul_by_x_pow(b, i1, q);
        lemma_eval_mul_by_x_pow(b, i1, zeta, q);
        lemma_mul_by_x_pow_len(b, i1, q);
        lemma_eval_mul_by_x(y, zeta, q);
        // zeta * eval(y) == zeta * zeta^(i-1) * eval(b)
        lemma_mod_mul_both(zeta, eval_poly(y, zeta), q);
        lemma_mod_mul_both(zeta, pow(zeta, i1) * eval_poly(b, zeta), q);
        crate::arith::lemma_pow_succ(zeta, i1);
        assert(zeta * (pow(zeta, i1) * eval_poly(b, zeta)) == pow(zeta, i) * eval_poly(b, zeta))
            by (nonlinear_arith)
            requires
                pow(zeta, i) == zeta * pow(zeta, i1),
        ;
    }
}

/// Evaluation at a point with `zeta^n == -1` turns the product in
/// `Z_q[x]/(x^n + 1)` into the product of the values.
pub proof fn lemma_eval_negacyclic_mul(a: Seq<u64>, b: Seq<u64>, zeta: int, q: int)
    requires
        crate::ntt_spec::modulus_ok(q),
        a.len() == b.len(),
        b.len() > 0,
        pow(zeta, b.len()) % q == q - 1,
    ensures
        eval_poly(negacyclic_mul(a, b, q), zeta) % q == (eval_poly(a, zeta) * eval_poly(b, zeta))
            % q,
{
    let n = a.len();
    let c = negacyclic_mul(a, b, q);
    let term = |i: int, k: int| a[i] * mul_by_x_pow(b, i as nat, q)[k] * pow(zeta, k as nat);
    // eval(c) == sum_k sum_i term(i, k)   (mod q)
    let fc = |k: int| c[k] * pow(zeta, k as nat);
    let fk = |k: int| sum_f(|i: int| term(i, k), n);
    assert forall|k: int| 0 <= k < n implies #[trigger] fc(k) % q == fk(k) % q by {
        let inner = |i: int| a[i] * mul_by_x_pow(b, i as nat, q)[k];
        let s = sum_f(inner, n);
        crate::ntt_spec::lemma_cast_mod(s, q);
        lemma_mod_mul_both(s, pow(zeta, k as nat), q);
        crate::arith::lemma_mod_idem(s, q);
        lemma_sum_scale(inner, pow(zeta, k as nat), n);
        assert forall|i: int| 0 <= i < n implies #[trigger] term(i, k) == pow(zeta, k as nat) * inner(i) by {
            assert(a[i] * mul_by_x_pow(b, i as nat, q)[k] * pow(zeta, k as nat) == pow(zeta, k as nat) * (a[i]
                * mul_by_x_pow(b, i as nat, q)[k])) by (nonlinear_arith);
        }
        lemma_sum_ext(|i: int| term(i, k), |i: int| pow(zeta, k as nat) * inner(i), n);
        assert(s * pow(zeta, k as nat) == pow(zeta, k as nat) * s) by (nonlinear_arith);
    }
    lemma_sum_congruent(fc, fk, n, q);
    // swap the sums: sum_i sum_k term(i, k)
    lemma_sum_swap(term, n, n);
    let fi = |i: int| sum_f(|k: int| term(i, k), n);
    // each inner sum is a_i * eval(x^i * b), congruent to a_i * zeta^i * eval(b)
    let gi = |i: int| eval_poly(b, zeta) * (a[i] * pow(zeta, i as nat));
    assert forall|i: int| 0 <= i < n implies #[trigger] fi(i) % q == gi(i) % q by {
        let y = mul_by_x_pow(b, i as nat, q);
        lemma_mul_by_x_pow_len(b, i as nat, q);
        let ey = |k: int| y[k] * pow(zeta, k as nat);
        lemma_sum_scale(ey, a[i] as int, n);
        assert forall|k: int| 0 <= k < n implies #[trigger] term(i, k) == a[i] * ey(k) by {
            assert(a[i] * y[k] * pow(zeta, k as nat) == a[i] * (y[k] * pow(zeta, k as nat)))
                by (nonlinear_arith);
        }
        lemma_sum_ext(|k: int| term(i, k), |k: int| a[i] * ey(k), n);
        assert(eval_poly(y, zeta) == sum_f(ey, n));
        lemma_eval_mul_by_x_pow(b, i as nat, zeta, q);
        lemma_mod_mul_both(a[i] as int, eval_poly(y, zeta), q);
        lemma_mod_mul_both(a[i] as int, pow(zeta, i as nat) * eval_poly(b, zeta), q);
        assert(a[i] * (pow(zeta, i as nat) * eval_poly(b, zeta)) == eval_poly(b, zeta) * (a[i]
            * pow(zeta, i as nat))) by (nonlinear_arith);
    }
    lemma_sum_congruent(fi, gi, n, q);
    // sum_i eval(b) * a_i * zeta^i == eval(b) * eval(a)
    let fa = |i: int| a[i] * pow(zeta, i as nat);
    lemma_sum_scale(fa, eval_poly(b, zeta), n);
    lemma_sum_ext(gi, |i: int| eval_poly(b, zeta) * fa(i), n);
    assert(eval_poly(a, zeta) == sum_f(fa, n));
    assert(eval_poly(b, zeta) * eval_poly(a, zeta) == eval_poly(a, zeta) * eval_poly(b, zeta))
        by (nonlinear_arith);
    assert(eval_poly(c, zeta) == sum_f(fc, n));
}


/// `(-1)^(2e+1) == -1`.
proof fn lemma_minus_one_odd_pow(e: nat)
    ensures
        pow(-1, 2 * e + 1) == -1,
{
    crate::arith::lemma_pow_even(-1, e);
    vstd::arithmetic::power::lemma1_pow(e);
    assert((-1) * (-1) == 1);
    crate::arith::lemma_pow_succ(-1, 2 * e);
}

/// Each evaluation point `psi^(2k+1)` of a negacyclic root satisfies `zeta^n == -1`.
proof fn lemma_eval_point_negacyclic(psi: int, k: nat, n: nat, q: int)
    requires
        q > 1,
        pow(psi, n) % q == q - 1,
    ensures
        pow(pow(psi, 2 * k + 1), n) % q == q - 1,
{
    vstd::arithmetic::power::lemma_pow_multiplies(psi, 2 * k + 1, n);
    vstd::arithmetic::power::lemma_pow_multiplies(psi, n, 2 * k + 1);
    assert((2 * k + 1) * n == n * (2 * k + 1)) by (nonlinear_arith);
    crate::arith::lemma_pow_mod_base(pow(psi, n), 2 * k + 1, q);
    crate::arith::lemma_mod_add_multiple(-1, 1, q);
    lemma_mod_small(q - 1, q);
    crate::arith::lemma_pow_mod_base(-1, 2 * k + 1, q);
    lemma_minus_one_odd_pow(k);
}

/// The NTT multiplies in `Z_q[x]/(x^n + 1)`, for a plan built from the root `psi`.
proof fn lemma_ntt_multiplies_with_root(plan: &crate::ntt::NttPlan, psi: int, a: Seq<u64>, b: Seq<u64>)
    requires
        plan.wf(),
        plan.invertible(),
        crate::ntt_build::is_negacyclic_root(psi, plan.degree as nat, plan.modulus as int),
        plan.built_from(psi),
        a.len() == plan.degree,
        b.len() == plan.degree,
        crate::ntt_spec::reduced(a, plan.modulus as int),
        crate::ntt_spec::reduced(b, plan.modulus as int),
    ensures
        plan.inverse_spec(
            crate::ntt_spec::scale_by(plan.forward_spec(a), plan.forward_spec(b), plan.modulus as int),
        ) == negacyclic_mul(a, b, plan.modulus as int),
{
    let q = plan.modulus as int;
    let n = plan.degree as nat;
    let layers = plan.layers();
    let w = plan.root as int;
    let c = negacyclic_mul(a, b, q);
    crate::ntt::lemma_plan_tables_pub(plan);
    vstd::arithmetic::power2::lemma_pow2_pos(layers);
    // the twiddle tables come from w == psi^2 mod q, with w^n == 1 and w^(n/2) == -1
    assert(crate::ntt_eval::dif_tables_from(layers, plan.dif_tws(), (psi * psi) % q, q)) by {
        assert forall|l: int, i: int| 0 <= l < layers && 0 <= i < plan.dif_tws()[l].len() implies #[trigger] plan.dif_tws()[l][i]
            == pow((psi * psi) % q, (i * vstd::arithmetic::power2::pow2(l as nat)) as nat) % q by {
            assert(plan.dif_tws()[l] == plan.dif_stages[l].twiddles@);
        }
    }
    if layers > 0 {
        crate::arith::lemma_pow_even(psi, n);
        crate::arith::lemma_pow_mod_base(psi * psi, n, q);
        vstd::arithmetic::power2::lemma_pow2_unfold(layers);
        let h = n / 2;
        assert(n == 2 * h);
        crate::arith::lemma_pow_even(psi, h);
        crate::arith::lemma_pow_mod_base(psi * psi, h, q);
    }
    // the forward transform evaluates at the points psi^(2 bitrev(t) + 1)
    crate::ntt_eval::lemma_forward_evaluates(a, layers, n, plan.dif_tws(), psi, plan.psi_powers@, q);
    crate::ntt_eval::lemma_forward_evaluates(b, layers, n, plan.dif_tws(), psi, plan.psi_powers@, q);
    assert(crate::ntt_spec::reduced(c, q)) by {
        assert forall|k: int| 0 <= k < c.len() implies #[trigger] c[k] < q by {
            let s = sum_f(|i: int| a[i] * mul_by_x_pow(b, i as nat, q)[k], a.len());
            crate::ntt_spec::lemma_cast_mod(s, q);
        }
    }
    crate::ntt_eval::lemma_forward_evaluates(c, layers, n, plan.dif_tws(), psi, plan.psi_powers@, q);
    let fa = plan.forward_spec(a);
    let fb = plan.forward_spec(b);
    let fc = plan.forward_spec(c);
    let za = crate::ntt_spec::scale_by(a, plan.psi_powers@, q);
    assert(crate::ntt_spec::reduced(za, q)) by {
        assert forall|k: int| 0 <= k < za.len() implies #[trigger] za[k] < q by {
            lemma_mod_range(a[k] * plan.psi_powers@[k], q);
        }
    }
    crate::ntt_spec::lemma_fwd_shape(za, 0, layers, n, plan.dif_tws(), q);
    let zc = crate::ntt_spec::scale_by(c, plan.psi_powers@, q);
    assert(crate::ntt_spec::reduced(zc, q)) by {
        assert forall|k: int| 0 <= k < zc.len() implies #[trigger] zc[k] < q by {
            lemma_mod_range(c[k] * plan.psi_powers@[k], q);
        }
    }
    crate::ntt_spec::lemma_fwd_shape(zc, 0, layers, n, plan.dif_tws(), q);
    assert forall|t: int| 0 <= t < n implies #[trigger] fc[t] == crate::ntt_spec::scale_by(fa, fb, q)[t] by {
        let e = crate::bitrev::bitrev(t as nat, layers);
        let zeta = crate::ntt_eval::eval_point(psi, t, layers);
        lemma_eval_point_negacyclic(psi, e, n, q);
        lemma_eval_negacyclic_mul(a, b, zeta, q);
        lemma_mod_mul_both(eval_poly(a, zeta), eval_poly(b, zeta), q);
        crate::ntt_spec::lemma_cast_mod(fa[t] * fb[t], q);
    }
    assert(fc =~= crate::ntt_spec::scale_by(fa, fb, q));
    crate::ntt::lemma_inverse_undoes_forward(plan, c);
}

/// The NTT multiplies in `Z_q[x]/(x^n + 1)`: transforming two residue vectors,
/// multiplying the spectra pointwise and transforming back gives their
/// negacyclic product. This holds for every well-formed, invertible plan built
/// from a negacyclic root, which is what `NttPlan::new` returns for a prime modulus.
pub proof fn lemma_ntt_multiplies(plan: &crate::ntt::NttPlan, a: Seq<u64>, b: Seq<u64>)
    requires
        plan.wf(),
        plan.invertible(),
        exists|psi: int|
            crate::ntt_build::is_negacyclic_root(psi, plan.degree as nat, plan.modulus as int)
                && plan.built_from(psi),
        a.len() == plan.degree,
        b.len() == plan.degree,
        crate::ntt_spec::reduced(a, plan.modulus as int),
        crate::ntt_spec::reduced(b, plan.modulus as int),
    ensures
        plan.inverse_spec(
            crate::ntt_spec::scale_by(plan.forward_spec(a), plan.forward_spec(b), plan.modulus as int),
        ) == negacyclic_mul(a, b, plan.modulus as int),
{
    let psi = choose|psi: int|
        crate::ntt_build::is_negacyclic_root(psi, plan.degree as nat, plan.modulus as int)
            && plan.built_from(psi);
    lemma_ntt_multiplies_with_root(plan, psi, a, b);
}
} // verus!
