//! What the forward network computes: every output of the DIF network is a
//! DFT sum of its input block, so the forward negacyclic transform evaluates
//! the input polynomial at the odd powers of `psi`.

use crate::arith::{lemma_mod_add_both, lemma_mod_mul_both, lemma_mod_range, lemma_mod_small, lemma_mod_sub_both};
use crate::bitrev::bitrev;
use crate::ntt_spec::{dif_stage, dif_tables_ok, fwd_from, modulus_ok, reduced};
use crate::sums::{lemma_sum_add, lemma_sum_congruent, lemma_sum_ext, lemma_sum_split, sum_f};
use vstd::arithmetic::power::pow;
use vstd::arithmetic::power2::pow2;
use vstd::prelude::*;

verus! {

/// `sum_{m < k} x[off + m] * w^(g * m * e)`: the DFT sum at frequency `e` of the
/// length-`k` block of `x` starting at `off`, for the root `w^g`.
pub open spec fn block_dft(x: Seq<u64>, off: int, k: nat, w: int, g: nat, e: nat) -> int {
    sum_f(|m: int| x[off + m] * pow(w, (g * m * e) as nat), k)
}

/// Termwise identity behind the first half of a DIF butterfly:
/// `((a + b) mod q) * p == a * p + b * (p * r)` modulo `q` when `r == 1 (mod q)`.
proof fn lemma_dif_first_term(a: int, b: int, p: int, r: int, q: int)
    requires
        q > 0,
        r % q == 1,
    ensures
        (((a + b) % q) * p) % q == (a * p + b * (p * r)) % q,
{
    lemma_mod_mul_both(a + b, p, q);
    assert((a + b) * p == a * p + b * p) by (nonlinear_arith);
    lemma_mod_mul_both(b * p, r, q);
    assert(b * (p * r) == (b * p) * r) by (nonlinear_arith);
    // (b * p * r) % q == (b * p) % q
    lemma_mod_mul_both(b * p, r, q);
    assert(((b * p) % q) * (r % q) == (b * p) % q);
    crate::arith::lemma_mod_idem(b * p, q);
    lemma_mod_add_both(a * p, b * p, q);
    lemma_mod_add_both(a * p, b * (p * r), q);
}

/// Termwise identity behind the second half of a DIF butterfly:
/// `((((a - b) mod q) * (t mod q)) mod q) * p == a * (t * p) + b * (t * p * r)`
/// modulo `q` when `r == -1 (mod q)`.
proof fn lemma_dif_second_term(a: int, b: int, t: int, p: int, r: int, q: int)
    requires
        q > 0,
        r % q == q - 1,
    ensures
        (((((a - b) % q) * (t % q)) % q) * p) % q == (a * (t * p) + b * (t * p * r)) % q,
{
    lemma_mod_mul_both(a - b, t, q);
    lemma_mod_mul_both((a - b) * t, p, q);
    crate::arith::lemma_mod_idem((a - b) * t, q);
    lemma_mod_mul_both(((a - b) % q) * (t % q), p, q);
    assert((a - b) * t * p == a * (t * p) - b * (t * p)) by (nonlinear_arith);
    // b * (t * p) * r == -(b * (t * p)) (mod q)
    let c = b * (t * p);
    lemma_mod_mul_both(c, r, q);
    lemma_mod_mul_both(c, -1, q);
    crate::arith::lemma_mod_add_multiple(-1, 1, q);
    assert(b * (t * p * r) == c * r) by (nonlinear_arith)
        requires
            c == b * (t * p),
    ;
    assert(c * (-1) == -c) by (nonlinear_arith);
    lemma_mod_sub_both(a * (t * p), c, q);
    lemma_mod_add_both(a * (t * p), c * r, q);
    lemma_mod_add_both(a * (t * p), -c, q);
    assert(a * (t * p) - c == a * (t * p) + (-c));
    lemma_mod_small(q - 1, q);
    assert((-1) % q == q - 1);
}


/// `w^(a + b) == w^a * w^b` for exponents given as products.
proof fn lemma_pow_add_exp(w: int, x: nat, y: nat, z: nat)
    requires
        z == x + y,
    ensures
        pow(w, z) == pow(w, x) * pow(w, y),
{
    vstd::arithmetic::power::lemma_pow_adds(w, x, y);
}

/// The first half of a DIF stage on a block of length `2h` turns the block's
/// DFT sums at even frequencies `2e` into DFT sums of the half-length block
/// for the squared root.
proof fn lemma_dif_block_first(
    z: Seq<u64>,
    d: Seq<u64>,
    off: int,
    h: nat,
    w: int,
    g: nat,
    e: nat,
    n: nat,
    q: int,
)
    requires
        modulus_ok(q),
        n > 0,
        2 * g * h == n,
        pow(w, n) % q == 1,
        0 <= off,
        off + 2 * h <= z.len(),
        off + h <= d.len(),
        forall|m: int| 0 <= m < h ==> #[trigger] d[off + m] as int == (z[off + m] + z[off + m + h]) % q,
    ensures
        block_dft(d, off, h, w, 2 * g, e) % q == block_dft(z, off, 2 * h, w, g, 2 * e) % q,
{
    let f = |m: int| z[off + m] * pow(w, (g * m * (2 * e)) as nat);
    let gd = |m: int| d[off + m] * pow(w, ((2 * g) * m * e) as nat);
    lemma_sum_split(f, h, h);
    assert((h + h) as nat == 2 * h);
    let f2 = |m: int| f(m + h);
    lemma_sum_add(f, f2, h);
    let r = pow(w, (g * h * (2 * e)) as nat);
    assert(r % q == 1) by {
        assert((g * h * (2 * e)) as nat == n * e) by (nonlinear_arith)
            requires
                2 * g * h == n,
        ;
        assert((n * e) % n == 0) by {
            vstd::arithmetic::div_mod::lemma_mod_multiples_basic(e as int, n as int);
            assert((e as int) * (n as int) == (n * e) as int) by (nonlinear_arith);
        }
        crate::arith::lemma_pow_order(w, n, n * e, q);
    }
    assert forall|m: int| 0 <= m < h implies #[trigger] gd(m) % q == (f(m) + f2(m)) % q by {
        let a = z[off + m] as int;
        let b = z[off + m + h] as int;
        let p = pow(w, (g * m * (2 * e)) as nat);
        assert(((2 * g) * m * e) as nat == (g * m * (2 * e)) as nat) by (nonlinear_arith)
            requires
                m >= 0,
        ;
        assert((g * (m + h) * (2 * e)) as nat == (g * m * (2 * e)) as nat + (g * h * (2 * e)) as nat)
            by (nonlinear_arith)
            requires
                m >= 0,
        ;
        lemma_pow_add_exp(w, (g * m * (2 * e)) as nat, (g * h * (2 * e)) as nat, (g * (m + h) * (2 * e)) as nat);
        assert(f2(m) == b * (p * r));
        lemma_dif_first_term(a, b, p, r, q);
    }
    lemma_sum_congruent(gd, |m: int| f(m) + f2(m), h, q);
}

/// The second half of a DIF stage on a block of length `2h` turns the block's
/// DFT sums at odd frequencies `2e + 1` into DFT sums of the half-length block
/// for the squared root.
proof fn lemma_dif_block_second(
    z: Seq<u64>,
    d: Seq<u64>,
    off: int,
    h: nat,
    w: int,
    g: nat,
    e: nat,
    n: nat,
    q: int,
)
    requires
        modulus_ok(q),
        n > 0,
        2 * g * h == n,
        pow(w, n) % q == 1,
        pow(w, g * h) % q == q - 1,
        0 <= off,
        off + 2 * h <= z.len(),
        off + 2 * h <= d.len(),
        forall|m: int|
            0 <= m < h ==> #[trigger] d[off + h + m] as int == (((z[off + m] - z[off + m + h]) % q)
                * (pow(w, (g * m) as nat) % q)) % q,
    ensures
        block_dft(d, off + h, h, w, 2 * g, e) % q == block_dft(z, off, 2 * h, w, g, 2 * e + 1) % q,
{
    let f = |m: int| z[off + m] * pow(w, (g * m * (2 * e + 1)) as nat);
    let gd = |m: int| d[off + h + m] * pow(w, ((2 * g) * m * e) as nat);
    lemma_sum_split(f, h, h);
    assert((h + h) as nat == 2 * h);
    let f2 = |m: int| f(m + h);
    lemma_sum_add(f, f2, h);
    let r = pow(w, (g * h * (2 * e + 1)) as nat);
    assert(r % q == q - 1) by {
        assert((g * h * (2 * e + 1)) as nat == n * e + g * h) by (nonlinear_arith)
            requires
                2 * g * h == n,
        ;
        lemma_pow_add_exp(w, n * e, g * h, (g * h * (2 * e + 1)) as nat);
        assert((n * e) % n == 0) by {
            vstd::arithmetic::div_mod::lemma_mod_multiples_basic(e as int, n as int);
            assert((e as int) * (n as int) == (n * e) as int) by (nonlinear_arith);
        }
        crate::arith::lemma_pow_order(w, n, n * e, q);
        lemma_mod_mul_both(pow(w, n * e), pow(w, g * h), q);
        lemma_mod_small(q - 1, q);
    }
    let gd_alt = |m: int| d[off + h + m] * pow(w, ((2 * g) * m * e) as nat);
    assert forall|m: int| 0 <= m < h implies #[trigger] gd(m) % q == (f(m) + f2(m)) % q by {
        let a = z[off + m] as int;
        let b = z[off + m + h] as int;
        let t = pow(w, (g * m) as nat);
        let p = pow(w, ((2 * g) * m * e) as nat);
        assert((g * m * (2 * e + 1)) as nat == (g * m) as nat + ((2 * g) * m * e) as nat)
            by (nonlinear_arith)
            requires
                m >= 0,
        ;
        lemma_pow_add_exp(w, (g * m) as nat, ((2 * g) * m * e) as nat, (g * m * (2 * e + 1)) as nat);
        assert((g * (m + h) * (2 * e + 1)) as nat == (g * m * (2 * e + 1)) as nat + (g * h * (2 * e
            + 1)) as nat) by (nonlinear_arith)
            requires
                m >= 0,
        ;
        lemma_pow_add_exp(w, (g * m * (2 * e + 1)) as nat, (g * h * (2 * e + 1)) as nat, (g * (m
            + h) * (2 * e + 1)) as nat);
        assert(f(m) == a * (t * p));
        assert(f2(m) == b * (t * p * r));
        lemma_dif_second_term(a, b, t, p, r, q);
    }
    lemma_sum_congruent(gd, |m: int| f(m) + f2(m), h, q);
}

/// Locating position `p` in blocks of length `2h` and in half-blocks of length `h`.
proof fn lemma_block_pos(p: int, h: int)
    requires
        h > 0,
        p >= 0,
    ensures
        p == (p / (2 * h)) * (2 * h) + p % (2 * h),
        0 <= p % (2 * h) < 2 * h,
        p % (2 * h) < h ==> p / h == 2 * (p / (2 * h)) && p % h == p % (2 * h),
        p % (2 * h) >= h ==> p / h == 2 * (p / (2 * h)) + 1 && p % h == p % (2 * h) - h,
        (p % (2 * h)) % h == p % h,
        (p % (2 * h)) / h == if p % (2 * h) < h { 0int } else { 1int },
{
    let l = 2 * h;
    let b = p / l;
    let t = p % l;
    vstd::arithmetic::div_mod::lemma_fundamental_div_mod(p, l);
    lemma_mod_range(p, l);
    assert(l * b == b * l) by (nonlinear_arith);
    if t < h {
        assert((2 * b) * h + t == l * b + t) by (nonlinear_arith)
            requires
                l == 2 * h,
        ;
        vstd::arithmetic::div_mod::lemma_fundamental_div_mod_converse(p, h, 2 * b, t);
        lemma_mod_small(t, h);
        vstd::arithmetic::div_mod::lemma_fundamental_div_mod_converse(t, h, 0, t);
    } else {
        assert((2 * b + 1) * h + (t - h) == l * b + t) by (nonlinear_arith)
            requires
                l == 2 * h,
        ;
        vstd::arithmetic::div_mod::lemma_fundamental_div_mod_converse(p, h, 2 * b + 1, t - h);
        vstd::arithmetic::div_mod::lemma_fundamental_div_mod_converse(t, h, 1, t - h);
    }
}

/// The stage tables of a forward network built from the root `w`:
/// stage `l` holds `w^(i * 2^l) mod q`.
pub open spec fn dif_tables_from(layers: nat, tws: Seq<Seq<u64>>, w: int, q: int) -> bool {
    forall|l: int, i: int|
        0 <= l < layers && 0 <= i < tws[l].len() ==> #[trigger] tws[l][i] == pow(
            w,
            (i * pow2(l as nat)) as nat,
        ) % q
}

/// What the forward network computes: from layer `s` on, output `p` is the DFT
/// sum, at the bit-reversed frequency, of the input block of length
/// `L = n / 2^s` holding `p`, for the root `w^(2^s)`.
pub proof fn lemma_fwd_blocks(
    z: Seq<u64>,
    s: nat,
    layers: nat,
    n: nat,
    tws: Seq<Seq<u64>>,
    w: int,
    q: int,
)
    requires
        dif_tables_ok(layers, n, tws),
        dif_tables_from(layers, tws, w, q),
        modulus_ok(q),
        layers > 0 ==> pow(w, n) % q == 1 && pow(w, n / 2) % q == q - 1,
        z.len() == n,
        reduced(z, q),
        s <= layers,
    ensures
        forall|p: int|
            0 <= p < n ==> #[trigger] fwd_from(z, s, layers, n, tws, q)[p] as int == block_dft(
                z,
                (p / (n / pow2(s)) as int) * (n / pow2(s)) as int,
                n / pow2(s),
                w,
                pow2(s),
                bitrev((p % (n / pow2(s)) as int) as nat, (layers - s) as nat),
            ) % q,
    decreases layers - s,
{
    if s == layers {
        assert(n / pow2(s) == 1) by {
            vstd::arithmetic::power2::lemma_pow2_pos(s);
            vstd::arithmetic::div_mod::lemma_div_by_self(n as int);
        }
        assert forall|p: int| 0 <= p < n implies #[trigger] fwd_from(z, s, layers, n, tws, q)[p] as int
            == block_dft(z, (p / 1) * 1, 1, w, pow2(s), bitrev((p % 1) as nat, 0)) % q by {
            assert(p / 1 == p);
            assert(p % 1 == 0);
            assert(bitrev(0, 0) == 0);
            crate::arith::lemma_pow_succ(w, 0);
            assert((pow2(s) * 0 * 0) as nat == 0);
            let f = |m: int| z[p + m] * pow(w, (pow2(s) * m * 0) as nat);
            assert(sum_f(f, 0) == 0);
            assert(f(0) == z[p] * pow(w, 0));
            assert(z[p] * 1 == z[p]);
            lemma_mod_small(z[p] as int, q);
        }
    } else {
        let big = n / pow2(s);
        let h = n / pow2(s + 1);
        let g = pow2(s);
        let tw = tws[s as int];
        crate::arith::lemma_stage_len(layers, s);
        assert(tw.len() == h);
        let d = dif_stage(z, big, tw, q);
        crate::ntt_spec::lemma_stages_reduced(z, big, tw, q);
        lemma_fwd_blocks(d, s + 1, layers, n, tws, w, q);
        assert(fwd_from(z, s, layers, n, tws, q) == fwd_from(d, s + 1, layers, n, tws, q));
        vstd::arithmetic::power2::lemma_pow2_unfold(s + 1);
        vstd::arithmetic::power2::lemma_pow2_pos(s);
        assert(big == 2 * h);
        // 2 * g * h == n
        vstd::arithmetic::power2::lemma_pow2_adds(s + 1, (layers - s - 1) as nat);
        assert((s + 1 + (layers - s - 1)) as nat == layers);
        assert(2 * g * h == n) by (nonlinear_arith)
            requires
                pow2(s + 1) == 2 * g,
                pow2(s + 1) * pow2((layers - s - 1) as nat) == pow2(layers),
                h == pow2((layers - s - 1) as nat),
                n == pow2(layers),
        ;
        assert(g * h == n / 2) by (nonlinear_arith)
            requires
                2 * g * h == n,
        ;
        assert forall|p: int| 0 <= p < n implies #[trigger] fwd_from(z, s, layers, n, tws, q)[p] as int
            == block_dft(
            z,
            (p / big as int) * big as int,
            big,
            w,
            g,
            bitrev((p % big as int) as nat, (layers - s) as nat),
        ) % q by {
            lemma_block_pos(p, h as int);
            let b = p / big as int;
            let t = p % big as int;
            let off = b * big as int;
            assert(b >= 0) by (nonlinear_arith)
                requires
                    p >= 0,
                    big > 0,
                    b == p / (big as int),
            ;
            assert(off + big <= n) by {
                vstd::arithmetic::div_mod::lemma_fundamental_div_mod(n as int, big as int);
                let c = (n as int) / (big as int);
                assert(n == big * c);
                if b >= c {
                    assert(b * big >= c * big) by (nonlinear_arith)
                        requires
                            b >= c,
                            big > 0,
                    ;
                    assert(c * big == big * c) by (nonlinear_arith);
                    assert(false);
                }
                assert((b + 1) * big <= c * big) by (nonlinear_arith)
                    requires
                        b + 1 <= c,
                        big > 0,
                ;
                assert(c * big == big * c) by (nonlinear_arith);
                assert((b + 1) * big == b * big + big) by (nonlinear_arith);
            }
            assert(b >= 0) by (nonlinear_arith)
                requires
                    p >= 0,
                    big > 0,
                    b == p / (big as int),
            ;
            crate::bitrev::lemma_bitrev_top_pub(t as nat, (layers - s - 1) as nat);
            assert(pow2((layers - s - 1) as nat) == h);
            assert((layers - s - 1) as nat + 1 == (layers - s) as nat);
            let e1 = bitrev((p % h as int) as nat, (layers - s - 1) as nat);
            // position arithmetic inside the block
            if t < h {
                assert forall|m: int| 0 <= m < h implies #[trigger] d[off + m] as int == (z[off + m] + z[off + m + h]) % q by {
                    vstd::arithmetic::div_mod::lemma_fundamental_div_mod_converse(off + m, big as int, b, m);
                    assert((off + m) % (big as int) == m);
                    crate::ntt_spec::lemma_cast_mod(z[off + m] + z[off + m + h], q);
                }
                lemma_dif_block_first(z, d, off, h, w, g, e1, n, q);
                assert((p / h as int) * h as int == off) by (nonlinear_arith)
                    requires
                        p / (h as int) == 2 * b,
                        off == b * big,
                        big == 2 * h,
                ;
            } else {
                assert forall|m: int| 0 <= m < h implies #[trigger] d[off + h + m] as int == (((z[off + m] - z[off + m + h]) % q) * (pow(w, (g * m) as nat) % q)) % q by {
                    vstd::arithmetic::div_mod::lemma_fundamental_div_mod_converse(off + h + m, big as int, b, h + m);
                    assert((off + h + m) % (big as int) == h + m);
                    assert(tw[m] == pow(w, (m * pow2(s)) as nat) % q);
                    assert(m * pow2(s) == g * m) by (nonlinear_arith)
                        requires
                            g == pow2(s),
                    ;
                    crate::ntt_spec::lemma_cast_mod(((z[off + m] - z[off + m + h]) % q) * tw[m], q);
                    assert(off + m + h == off + h + m);
                }
                lemma_dif_block_second(z, d, off, h, w, g, e1, n, q);
                assert((p / h as int) * h as int == off + h) by (nonlinear_arith)
                    requires
                        p / (h as int) == 2 * b + 1,
                        off == b * big,
                        big == 2 * h,
                ;
            }
        }
    }
}

/// `sum_j x[j] * zeta^j`: the polynomial with coefficients `x` evaluated at `zeta`.
pub open spec fn eval_poly(x: Seq<u64>, zeta: int) -> int {
    sum_f(|j: int| x[j] * pow(zeta, j as nat), x.len())
}

/// The evaluation point of output `t` of a forward transform of length
/// `2^layers` built from `psi`: `psi^(2 * bitrev(t) + 1)`.
pub open spec fn eval_point(psi: int, t: int, layers: nat) -> int {
    pow(psi, (2 * bitrev(t as nat, layers) + 1) as nat)
}

/// Termwise identity behind the twisted transform:
/// `((x * psi^j) mod q) * (psi^2 mod q)^(j*e) == x * (psi^(2e+1))^j (mod q)`.
proof fn lemma_twist_term(x: int, psi: int, j: nat, e: nat, q: int)
    requires
        q > 0,
    ensures
        (((x * (pow(psi, j) % q)) % q) * pow((psi * psi) % q, j * e)) % q == (x * pow(
            pow(psi, 2 * e + 1),
            j,
        )) % q,
{
    let a = pow(psi, j);
    let b = pow((psi * psi) % q, j * e);
    let c = pow(psi, 2 * (j * e));
    // b == c (mod q)
    crate::arith::lemma_pow_mod_base(psi * psi, j * e, q);
    crate::arith::lemma_pow_even(psi, j * e);
    // (x * (a % q)) % q * b == x * a * c (mod q)
    lemma_mod_mul_both(x, a, q);
    lemma_mod_mul_both(x * a, b, q);
    crate::arith::lemma_mod_idem(x * a, q);
    lemma_mod_mul_both((x * (a % q)) % q, b, q);
    lemma_mod_mul_both(x * a, c, q);
    assert(((x * (a % q)) % q * b) % q == ((x * a) % q * (b % q)) % q);
    // a * c == psi^(j + 2je) == (psi^(2e+1))^j
    lemma_pow_add_exp(psi, j, 2 * (j * e), j + 2 * (j * e));
    vstd::arithmetic::power::lemma_pow_multiplies(psi, 2 * e + 1, j);
    assert(j + 2 * (j * e) == (2 * e + 1) * j) by (nonlinear_arith);
    assert((x * a) * c == x * (a * c)) by (nonlinear_arith);
}

/// The forward negacyclic transform evaluates: output `t` is the input
/// polynomial evaluated at `psi^(2 * bitrev(t) + 1)`, modulo `q`.
pub proof fn lemma_forward_evaluates(
    x: Seq<u64>,
    layers: nat,
    n: nat,
    tws: Seq<Seq<u64>>,
    psi: int,
    psi_powers: Seq<u64>,
    q: int,
)
    requires
        dif_tables_ok(layers, n, tws),
        dif_tables_from(layers, tws, (psi * psi) % q, q),
        modulus_ok(q),
        layers > 0 ==> pow((psi * psi) % q, n) % q == 1 && pow((psi * psi) % q, n / 2) % q == q - 1,
        x.len() == n,
        psi_powers.len() == n,
        forall|j: int| 0 <= j < n ==> #[trigger] psi_powers[j] == pow(psi, j as nat) % q,
    ensures
        forall|t: int|
            0 <= t < n ==> #[trigger] fwd_from(
                crate::ntt_spec::scale_by(x, psi_powers, q),
                0,
                layers,
                n,
                tws,
                q,
            )[t] as int == eval_poly(x, eval_point(psi, t, layers)) % q,
{
    let z = crate::ntt_spec::scale_by(x, psi_powers, q);
    let w = (psi * psi) % q;
    assert(reduced(z, q)) by {
        assert forall|k: int| 0 <= k < z.len() implies #[trigger] z[k] < q by {
            lemma_mod_range(x[k] * psi_powers[k], q);
        }
    }
    lemma_fwd_blocks(z, 0, layers, n, tws, w, q);
    vstd::arithmetic::power2::lemma2_to64();
    assert forall|t: int| 0 <= t < n implies #[trigger] fwd_from(z, 0, layers, n, tws, q)[t] as int
        == eval_poly(x, eval_point(psi, t, layers)) % q by {
        assert(n / pow2(0) == n);
        assert(t / (n as int) == 0 && t % (n as int) == t) by {
            vstd::arithmetic::div_mod::lemma_fundamental_div_mod_converse(t, n as int, 0, t);
        }
        assert((layers - 0) as nat == layers);
        let e = bitrev(t as nat, layers);
        let zeta = pow(psi, 2 * e + 1);
        let f = |m: int| z[0 + m] * pow(w, (1 * m * e) as nat);
        let g = |j: int| x[j] * pow(zeta, j as nat);
        assert forall|m: int| 0 <= m < n implies #[trigger] f(m) % q == g(m) % q by {
            assert((1 * m * e) as nat == (m as nat) * e);
            crate::ntt_spec::lemma_cast_mod(x[m] * psi_powers[m], q);
            lemma_twist_term(x[m] as int, psi, m as nat, e, q);
        }
        lemma_sum_congruent(f, g, n, q);
        assert(block_dft(z, 0 * (n as int), n, w, pow2(0), e) == sum_f(f, n));
    }
}
} // verus!
