//! Construction of NTT plans: roots of unity, power tables and the per-stage
//! twiddle tables of the forward and inverse networks.

use crate::arith::{
    is_pow2, lemma_is_pow2_half, lemma_mod_range, lemma_mod_small, lemma_pow_mod_pow, lemma_pow_succ,
};
use crate::error::MathError;
use crate::modular::{mod_inv, mod_mul, mod_pow};
use crate::ntt::{NttPlan, StageTwiddles};
use vstd::arithmetic::div_mod::{lemma_fundamental_div_mod, lemma_fundamental_div_mod_converse};
use vstd::arithmetic::power::pow;
use vstd::arithmetic::power2::{lemma_pow2_unfold, pow2};
use vstd::prelude::*;

verus! {

/// The first `len` powers of `base` modulo `modulus`, starting from `1`.
pub(crate) fn powers(base: u64, len: usize, modulus: u64) -> (r: Vec<u64>)
    requires
        modulus > 0,
    ensures
        r.len() == len,
        forall|i: int|
            0 <= i < len ==> #[trigger] r[i] == if i == 0 {
                1
            } else {
                pow(base as int, i as nat) % (modulus as int)
            },
{
    let mut out: Vec<u64> = Vec::with_capacity(len);
    let mut current = 1u64;
    let mut k = 0usize;
    while k < len
        invariant
            modulus > 0,
            k <= len,
            out.len() == k,
            current == if k == 0 {
                1
            } else {
                pow(base as int, k as nat) % (modulus as int)
            },
            forall|i: int|
                0 <= i < k ==> #[trigger] out[i] == if i == 0 {
                    1
                } else {
                    pow(base as int, i as nat) % (modulus as int)
                },
        decreases len - k,
    {
        out.push(current);
        proof {
            lemma_pow_succ(base as int, k as nat);
            crate::arith::lemma_mod_mul_both(pow(base as int, k as nat), base as int, modulus as int);
            assert(pow(base as int, (k + 1) as nat) == base * pow(base as int, k as nat));
            assert(base * pow(base as int, k as nat) == pow(base as int, k as nat) * base)
                by (nonlinear_arith);
        }
        current = mod_mul(current, base, modulus);
        k += 1;
    }
    out
}

/// Twiddles of the stage with block length `len` in a transform of length
/// `degree`: `root^(j * degree/len) mod q` for `j < len / 2`.
pub(crate) fn stage_twiddles(root: u64, degree: usize, len: usize, modulus: u64) -> (r: Vec<u64>)
    requires
        modulus >= 2,
        len > 0,
    ensures
        r.len() == len / 2,
        forall|j: int|
            0 <= j < len / 2 ==> #[trigger] r[j] == pow(root as int, (j * (degree / len)) as nat)
                % (modulus as int),
{
    let half = len / 2;
    let stride = degree / len;
    let mut out: Vec<u64> = Vec::new();
    let mut j = 0usize;
    proof {
        lemma_fundamental_div_mod(degree as int, len as int);
    }
    while j < half
        invariant
            modulus >= 2,
            half == len / 2,
            stride == degree / len,
            len * stride <= degree,
            len > 0,
            j <= half,
            out.len() == j,
            forall|i: int|
                0 <= i < j ==> #[trigger] out[i] == pow(root as int, (i * stride) as nat) % (
                modulus as int),
        decreases half - j,
    {
        proof {
            assert(j * stride <= len * stride) by (nonlinear_arith)
                requires
                    j < len,
            ;
        }
        let e = (j * stride) as u64;
        let v = mod_pow(root, e, modulus);
        proof {
            if e == 0 {
                lemma_pow_succ(root as int, 0);
                lemma_mod_small(1, modulus as int);
            }
        }
        out.push(v);
        j += 1;
    }
    out
}

/// Forward stage tables: block lengths `degree, degree/2, ..., 2`, stage `l`
/// holding `root^(i * 2^l)` for `i < degree / 2^(l+1)`.
pub(crate) fn build_dif_stage_twiddles(root: u64, degree: usize, modulus: u64) -> (r: Vec<
    StageTwiddles,
>)
    requires
        modulus >= 2,
        is_pow2(degree as nat),
    ensures
        degree == pow2(r.len() as nat),
        forall|l: int|
            0 <= l < r.len() ==> {
                let st = #[trigger] r[l];
                &&& st.len == degree as nat / pow2(l as nat)
                &&& st.twiddles.len() == degree as nat / pow2((l + 1) as nat)
                &&& forall|i: int|
                    0 <= i < st.twiddles.len() ==> #[trigger] st.twiddles[i] == pow(
                        root as int,
                        (i * pow2(l as nat)) as nat,
                    ) % (modulus as int)
            },
{
    let mut stages: Vec<StageTwiddles> = Vec::new();
    let mut len = degree;
    proof {
        vstd::arithmetic::power2::lemma2_to64();
        assert(len * pow2(0) == len);
    }
    while len > 1
        invariant
            modulus >= 2,
            is_pow2(len as nat),
            len * pow2(stages.len() as nat) == degree,
            forall|l: int|
                0 <= l < stages.len() ==> {
                    let st = #[trigger] stages[l];
                    &&& st.len == degree as nat / pow2(l as nat)
                    &&& st.twiddles.len() == degree as nat / pow2((l + 1) as nat)
                    &&& forall|i: int|
                        0 <= i < st.twiddles.len() ==> #[trigger] st.twiddles[i] == pow(
                            root as int,
                            (i * pow2(l as nat)) as nat,
                        ) % (modulus as int)
                },
        decreases len,
    {
        let ghost l = stages.len() as nat;
        proof {
            lemma_is_pow2_half(len as nat);
            vstd::arithmetic::power2::lemma_pow2_pos(l);
            lemma_pow2_unfold(l + 1);
            lemma_fundamental_div_mod_converse(degree as int, pow2(l) as int, len as int, 0);
            assert(degree as int == (len / 2) * pow2(l + 1)) by (nonlinear_arith)
                requires
                    len * pow2(l) == degree,
                    pow2(l + 1) == 2 * pow2(l),
                    len % 2 == 0,
            ;
            vstd::arithmetic::power2::lemma_pow2_pos(l + 1);
            lemma_fundamental_div_mod_converse(degree as int, pow2(l + 1) as int, (len / 2) as int, 0);
            assert(degree as int == len * pow2(l)) by (nonlinear_arith)
                requires
                    len * pow2(l) == degree,
            ;
            assert(degree as int == pow2(l) * len) by (nonlinear_arith)
                requires
                    len * pow2(l) == degree,
            ;
            lemma_fundamental_div_mod_converse(degree as int, len as int, pow2(l) as int, 0);
        }
        let tw = stage_twiddles(root, degree, len, modulus);
        let ghost pre = stages@;
        stages.push(StageTwiddles { len, twiddles: tw });
        proof {
            assert forall|m: int| 0 <= m < stages.len() implies {
                let st = #[trigger] stages[m];
                &&& st.len == degree as nat / pow2(m as nat)
                &&& st.twiddles.len() == degree as nat / pow2((m + 1) as nat)
                &&& forall|i: int|
                    0 <= i < st.twiddles.len() ==> #[trigger] st.twiddles[i] == pow(
                        root as int,
                        (i * pow2(m as nat)) as nat,
                    ) % (modulus as int)
            } by {
                if m < l {
                    assert(stages[m] == pre[m]);
                }
            }
            assert(len / 2 * pow2(l + 1) == degree);
        }
        len = len / 2;
    }
    proof {
        lemma_is_pow2_half(len as nat);
        assert(1 * pow2(stages.len() as nat) == pow2(stages.len() as nat));
    }
    stages
}

/// Inverse stage tables for a transform of length `degree == 2^layers`: block
/// lengths `2, 4, ..., degree`, stage `l` holding `root_inv^(i * 2^(layers-1-l))`
/// for `i < 2^l`.
pub(crate) fn build_dit_stage_twiddles(
    root_inv: u64,
    degree: usize,
    modulus: u64,
    Ghost(layers): Ghost<nat>,
) -> (r: Vec<StageTwiddles>)
    requires
        modulus >= 2,
        degree == pow2(layers),
    ensures
        r.len() == layers,
        forall|l: int|
            0 <= l < r.len() ==> {
                let st = #[trigger] r[l];
                &&& st.len == pow2((l + 1) as nat)
                &&& st.twiddles.len() == pow2(l as nat)
                &&& forall|i: int|
                    0 <= i < st.twiddles.len() ==> #[trigger] st.twiddles[i] == pow(
                        root_inv as int,
                        (i * pow2((layers - 1 - l) as nat)) as nat,
                    ) % (modulus as int)
            },
{
    let mut stages: Vec<StageTwiddles> = Vec::new();
    if degree < 2 {
        proof {
            if layers > 0 {
                lemma_pow2_unfold(layers);
                vstd::arithmetic::power2::lemma_pow2_pos((layers - 1) as nat);
            }
        }
        return stages;
    }
    let mut len = 2usize;
    proof {
        vstd::arithmetic::power2::lemma2_to64();
        if layers == 0 {
            assert(degree == 1);
        }
    }
    loop
        invariant_except_break
            stages.len() < layers,
            len == pow2((stages.len() + 1) as nat),
        invariant
            modulus >= 2,
            degree == pow2(layers),
            layers >= 1,
            stages.len() <= layers,
            forall|l: int|
                0 <= l < stages.len() ==> {
                    let st = #[trigger] stages[l];
                    &&& st.len == pow2((l + 1) as nat)
                    &&& st.twiddles.len() == pow2(l as nat)
                    &&& forall|i: int|
                        0 <= i < st.twiddles.len() ==> #[trigger] st.twiddles[i] == pow(
                            root_inv as int,
                            (i * pow2((layers - 1 - l) as nat)) as nat,
                        ) % (modulus as int)
                },
        ensures
            stages.len() == layers,
            forall|l: int|
                0 <= l < stages.len() ==> {
                    let st = #[trigger] stages[l];
                    &&& st.len == pow2((l + 1) as nat)
                    &&& st.twiddles.len() == pow2(l as nat)
                    &&& forall|i: int|
                        0 <= i < st.twiddles.len() ==> #[trigger] st.twiddles[i] == pow(
                            root_inv as int,
                            (i * pow2((layers - 1 - l) as nat)) as nat,
                        ) % (modulus as int)
                },
        decreases layers - stages.len(),
    {
        let ghost l = stages.len() as nat;
        proof {
            vstd::arithmetic::power2::lemma_pow2_subtracts(l + 1, layers);
            lemma_pow2_unfold(l + 1);
            vstd::arithmetic::power2::lemma_pow2_pos(l + 1);
            assert((layers - (l + 1)) as nat == (layers - 1 - l) as nat);
        }
        let tw = stage_twiddles(root_inv, degree, len, modulus);
        let ghost pre = stages@;
        stages.push(StageTwiddles { len, twiddles: tw });
        proof {
            assert forall|m: int| 0 <= m < stages.len() implies {
                let st = #[trigger] stages[m];
                &&& st.len == pow2((m + 1) as nat)
                &&& st.twiddles.len() == pow2(m as nat)
                &&& forall|i: int|
                    0 <= i < st.twiddles.len() ==> #[trigger] st.twiddles[i] == pow(
                        root_inv as int,
                        (i * pow2((layers - 1 - m) as nat)) as nat,
                    ) % (modulus as int)
            } by {
                if m < l {
                    assert(stages[m] == pre[m]);
                }
            }
        }
        if len == degree {
            proof {
                if l + 1 < layers {
                    vstd::arithmetic::power2::lemma_pow2_strictly_increases(l + 1, layers);
                }
            }
            break;
        }
        proof {
            if l + 1 >= layers {
                assert(l + 1 == layers);
            }
            lemma_pow2_unfold(l + 2);
            vstd::arithmetic::power2::lemma_pow2_strictly_increases(l + 1, layers);
            if l + 2 > layers {
                assert(false);
            }
            if l + 2 < layers {
                vstd::arithmetic::power2::lemma_pow2_strictly_increases(l + 2, layers);
            }
        }
        len = len * 2;
    }
    stages
}


/// `psi` is a primitive `2n`-th root of unity modulo `q` in the sense the
/// negacyclic transform needs: `psi^(2n) == 1` and `psi^n == -1`.
pub open spec fn is_negacyclic_root(psi: int, n: nat, q: int) -> bool {
    &&& 0 <= psi < q
    &&& pow(psi, 2 * n) % q == 1
    &&& pow(psi, n) % q == q - 1
}

/// The squaring invariant of Tonelli-Shanks: `r^2 == n * t (mod p)` survives a step.
proof fn lemma_ts_step(r: int, t: int, n: int, b: int, p: int)
    requires
        p > 0,
        (r * r) % p == (n * t) % p,
    ensures
        (((r * b) % p) * ((r * b) % p)) % p == (n * ((t * ((b * b) % p)) % p)) % p,
{
    crate::arith::lemma_mod_mul_both(r * b, r * b, p);
    assert((r * b) * (r * b) == (r * r) * (b * b)) by (nonlinear_arith);
    crate::arith::lemma_mod_mul_both(r * r, b * b, p);
    crate::arith::lemma_mod_mul_both(n * t, b * b, p);
    crate::arith::lemma_mod_mul_both(t, b * b, p);
    crate::arith::lemma_mod_mul_both(n, t * ((b * b) % p), p);
    crate::arith::lemma_mod_mul_both(n, t * (b * b), p);
    assert(n * t * (b * b) == n * (t * (b * b))) by (nonlinear_arith);
}

/// The starting values of Tonelli-Shanks satisfy its squaring invariant.
proof fn lemma_ts_start(n: int, odd: nat, p: int)
    requires
        p > 0,
        odd % 2 == 1,
    ensures
        ((pow(n, ((odd + 1) / 2) as nat) % p) * (pow(n, ((odd + 1) / 2) as nat) % p)) % p == (n
            * (pow(n, odd) % p)) % p,
{
    let h = ((odd + 1) / 2) as nat;
    crate::arith::lemma_mod_mul_both(pow(n, h), pow(n, h), p);
    vstd::arithmetic::power::lemma_pow_adds(n, h, h);
    assert(h + h == odd + 1);
    lemma_pow_succ(n, odd);
    crate::arith::lemma_mod_mul_both(n, pow(n, odd), p);
}

/// The conditions under which Tonelli-Shanks finds a square root of `n`:
/// `p` is an odd prime with `p - 1 == odd_part * 2^two_adicity`, `z` is a
/// quadratic non-residue and `n` a quadratic residue by Euler's criterion.
spec fn tonelli_shanks_applies(p: nat, odd_part: nat, two_adicity: nat, z: int, n: int) -> bool {
    &&& tonelli_shanks_setup(p, odd_part, two_adicity, z)
    &&& pow(n, ((p - 1) / 2) as nat) % (p as int) == 1
}

/// The setting of Tonelli-Shanks: `p` is an odd prime with
/// `p - 1 == odd_part * 2^two_adicity` and `z` is a quadratic non-residue.
spec fn tonelli_shanks_setup(p: nat, odd_part: nat, two_adicity: nat, z: int) -> bool {
    &&& crate::number_theory::is_prime(p)
    &&& two_adicity >= 1
    &&& odd_part * pow2(two_adicity) == p - 1
    &&& pow(z, ((p - 1) / 2) as nat) % (p as int) == p - 1
}

/// Euler's criterion, the easy half: a nonzero square modulo an odd prime
/// `p` has `(p - 1) / 2`-th power one.
proof fn lemma_square_is_residue(p: nat, v: int, n: int)
    requires
        crate::number_theory::is_prime(p),
        p >= 3,
        v >= 0,
        (v * v) % (p as int) == n % (p as int),
        n % (p as int) != 0,
    ensures
        pow(n, ((p - 1) / 2) as nat) % (p as int) == 1,
{
    let pi = p as int;
    let h = ((p - 1) / 2) as nat;
    assert(p % 2 != 0);
    assert(2 * h == p - 1);
    if v % pi == 0 {
        crate::arith::lemma_mod_mul_both(v, v, pi);
        assert(0int * (v % pi) == 0);
        assert(0int % pi == 0);
    }
    crate::arith::lemma_pow_mod_base(n, h, pi);
    crate::arith::lemma_pow_mod_base(v * v, h, pi);
    crate::arith::lemma_pow_even(v, h);
    crate::fermat::lemma_fermat_little(v as nat, p);
}

/// `x % p` is zero exactly when `x < p` is.
proof fn lemma_small_zero(x: int, p: int)
    requires
        0 <= x < p,
    ensures
        (x % p == 0) == (x == 0),
{
    lemma_mod_small(x, p);
}

/// `x^(2^(j+1)) == (x^(2^j))^2` modulo `p`, with the square taken of the residue.
proof fn lemma_pow2_square(x: int, j: nat, p: int)
    requires
        p > 0,
    ensures
        ((pow(x, pow2(j)) % p) * (pow(x, pow2(j)) % p)) % p == pow(x, pow2(j + 1)) % p,
{
    lemma_pow2_unfold(j + 1);
    vstd::arithmetic::power::lemma_pow_adds(x, pow2(j), pow2(j));
    assert(pow2(j) + pow2(j) == pow2(j + 1));
    crate::arith::lemma_mod_mul_both(pow(x, pow2(j)), pow(x, pow2(j)), p);
}

/// The starting values of Tonelli-Shanks have the orders its loop needs:
/// `c = z^odd` squares to `-1` after `two_adicity - 1` squarings and `t = n^odd`
/// to `1`.
proof fn lemma_ts_orders(p: nat, odd: nat, s: nat, z: int, n: int)
    requires
        tonelli_shanks_setup(p, odd, s, z),
    ensures
        pow(pow(z, odd) % (p as int), pow2((s - 1) as nat)) % (p as int) == p - 1,
        pow(n, ((p - 1) / 2) as nat) % (p as int) == 1 ==> pow(pow(n, odd) % (p as int), pow2(
            (s - 1) as nat,
        )) % (p as int) == 1,
{
    let s1 = (s - 1) as nat;
    lemma_pow2_unfold(s);
    assert(odd * pow2(s1) == (p - 1) / 2) by (nonlinear_arith)
        requires
            odd * pow2(s) == p - 1,
            pow2(s) == 2 * pow2(s1),
    ;
    lemma_pow_mod_pow(z, odd, pow2(s1), p as int);
    lemma_pow_mod_pow(n, odd, pow2(s1), p as int);
}

/// The `c` part of a Tonelli-Shanks step: when `c` squares to `-1` after
/// `m - 1` squarings and `b = c^(2^(m - i - 1))`, then `b^2` squares to `-1`
/// after `i - 1` squarings, and `b^2` is a nonzero residue.
proof fn lemma_ts_c_step(p: nat, c: int, m: nat, i: nat, b: int)
    requires
        crate::number_theory::is_prime(p),
        p >= 3,
        1 <= i < m,
        pow(c, pow2((m - 1) as nat)) % (p as int) == p - 1,
        b == pow(c, pow2((m - i - 1) as nat)) % (p as int),
    ensures
        pow((b * b) % (p as int), pow2((i - 1) as nat)) % (p as int) == p - 1,
        (b * b) % (p as int) != 0,
{
    let pi = p as int;
    let i1 = (i - 1) as nat;
    let k = (m - i - 1) as nat;
    lemma_pow_mod_pow(c, pow2(k), pow2(i), pi);
    vstd::arithmetic::power2::lemma_pow2_adds(k, i);
    assert(k + i == (m - 1) as nat);
    crate::arith::lemma_pow_mod_base(b * b, pow2(i1), pi);
    crate::arith::lemma_pow_even(b, pow2(i1));
    lemma_pow2_unfold(i);
    assert(2 * pow2(i1) == pow2(i));
    let bb = (b * b) % pi;
    if bb == 0 {
        vstd::arithmetic::power2::lemma_pow2_pos(i1);
        vstd::arithmetic::power::lemma0_pow(pow2(i1));
        assert(0int % pi == 0);
    }
}

/// One Tonelli-Shanks step keeps the orders: when `c` squares to `-1` after
/// `m - 1` squarings, `t` is `-1` after `i - 1` squarings, and
/// `b = c^(2^(m - i - 1))`, then `b^2` squares to `-1` after `i - 1` squarings
/// and `t * b^2` to `1`.
proof fn lemma_ts_orders_step(p: nat, c: int, t: int, m: nat, i: nat, b: int)
    requires
        crate::number_theory::is_prime(p),
        p >= 3,
        1 <= i < m,
        pow(c, pow2((m - 1) as nat)) % (p as int) == p - 1,
        pow(t, pow2((i - 1) as nat)) % (p as int) == p - 1,
        b == pow(c, pow2((m - i - 1) as nat)) % (p as int),
    ensures
        pow((b * b) % (p as int), pow2((i - 1) as nat)) % (p as int) == p - 1,
        pow((t * ((b * b) % (p as int))) % (p as int), pow2((i - 1) as nat)) % (p as int) == 1,
{
    lemma_ts_c_step(p, c, m, i, b);
    let pi = p as int;
    let i1 = (i - 1) as nat;
    let bb = (b * b) % pi;
    // (t * bb)^(2^(i-1)) == t^(2^(i-1)) * bb^(2^(i-1)) == (-1)(-1)
    crate::arith::lemma_pow_mod_base(t * bb, pow2(i1), pi);
    vstd::arithmetic::power::lemma_pow_distributes(t, bb, pow2(i1));
    crate::arith::lemma_mod_mul_both(pow(t, pow2(i1)), pow(bb, pow2(i1)), pi);
    assert((pi - 1) * (pi - 1) == 1 + pi * (pi - 2)) by (nonlinear_arith);
    crate::arith::lemma_mod_add_multiple(1, pi - 2, pi);
    lemma_mod_small(1, pi);
}

/// Tonelli-Shanks square root modulo `p`, where `p - 1 == odd_part * 2^two_adicity`
/// and `z` is a quadratic non-residue. Returns `None` when the iteration finds
/// no square root. For an odd prime `p` (the setting of
/// [`tonelli_shanks_setup`]) it returns a square root of `n` exactly when `n`
/// is zero or a quadratic residue modulo `p`, and `None` otherwise.
fn tonelli_shanks_sqrt(p: u64, odd_part: u64, two_adicity: u64, z: u64, n: u64) -> (r: Option<
    u64,
>)
    requires
        p >= 2,
        odd_part % 2 == 1,
        odd_part < u64::MAX,
        two_adicity <= 64,
    ensures
        r matches Some(v) ==> v < p && (v == 0 || (v * v) % (p as int) == (n as int) % (p as int)),
        tonelli_shanks_setup(p as nat, odd_part as nat, two_adicity as nat, z as int) ==> (r is Some
            <==> ((n as int) % (p as int) == 0 || pow(n as int, ((p - 1) / 2) as nat) % (p as int)
            == 1)),
        tonelli_shanks_setup(p as nat, odd_part as nat, two_adicity as nat, z as int) ==> (
        r matches Some(v) ==> (v * v) % (p as int) == (n as int) % (p as int)),
{
    let ghost setup = tonelli_shanks_setup(p as nat, odd_part as nat, two_adicity as nat, z as int);
    let ghost good = tonelli_shanks_applies(
        p as nat,
        odd_part as nat,
        two_adicity as nat,
        z as int,
        n as int,
    );
    let ghost pi = p as int;
    let ghost ni = n as int;
    let mut m = two_adicity;
    let mut c = mod_pow(z, odd_part, p);
    let mut t = mod_pow(n, odd_part, p);
    let mut r = mod_pow(n, (odd_part + 1) / 2, p);
    proof {
        lemma_ts_start(n as int, odd_part as nat, p as int);
        crate::arith::lemma_pow_mod_base(ni, odd_part as nat, pi);
        if ni % pi == 0 {
            vstd::arithmetic::power::lemma0_pow(odd_part as nat);
            assert(0int % pi == 0);
        }
        if setup {
            lemma_ts_orders(p as nat, odd_part as nat, two_adicity as nat, z as int, n as int);
            vstd::arithmetic::power2::lemma2_to64();
            vstd::arithmetic::power2::lemma_pow2_strictly_increases(0, two_adicity as nat);
            assert(p >= 3) by (nonlinear_arith)
                requires
                    odd_part * pow2(two_adicity as nat) == p - 1,
                    pow2(two_adicity as nat) >= 2,
                    odd_part >= 1,
            {
            }
            if ni % pi != 0 && t == 0 {
                // a power of a nonzero residue modulo a prime is nonzero
                crate::generators::lemma_pow_nonzero(p as nat, ni, odd_part as nat);
            }
        }
    }
    loop
        invariant
            p >= 2,
            m <= 64,
            c < p,
            t < p,
            r < p,
            (r * r) % (p as int) == (n * t) % (p as int),
            pi == p,
            ni == n,
            ni % pi == 0 ==> t == 0,
            setup == tonelli_shanks_setup(
                p as nat,
                odd_part as nat,
                two_adicity as nat,
                z as int,
            ),
            good == tonelli_shanks_applies(
                p as nat,
                odd_part as nat,
                two_adicity as nat,
                z as int,
                n as int,
            ),
            setup ==> crate::number_theory::is_prime(p as nat),
            setup ==> p >= 3,
            setup ==> 1 <= m,
            setup ==> pow(c as int, pow2((m - 1) as nat)) % pi == p - 1,
            setup && ni % pi != 0 ==> t != 0,
            good ==> pow(t as int, pow2((m - 1) as nat)) % pi == 1,
        decreases m,
    {
        if t == 0 {
            proof {
                if setup {
                    assert(ni % pi == 0);
                    assert(0int * 0int == 0);
                    lemma_mod_small(0, pi);
                }
            }
            return Some(0);
        }
        if t == 1 {
            proof {
                crate::arith::lemma_mod_mul_both(n as int, 1, pi);
                if setup && ni % pi != 0 {
                    lemma_square_is_residue(p as nat, r as int, ni);
                }
            }
            return Some(r);
        }
        let mut i = 0u64;
        let mut t_pow = t;
        proof {
            crate::arith::lemma_pow_succ(t as int, 0);
            vstd::arithmetic::power2::lemma2_to64();
            lemma_mod_small(t as int, pi);
        }
        while i < m
            invariant_except_break
                t_pow != 1,
            invariant
                p >= 2,
                i <= m,
                t_pow < p,
                pi == p,
                t_pow == pow(t as int, pow2(i as nat)) % pi,
                forall|j: nat| j < i ==> #[trigger] (pow(t as int, pow2(j)) % pi) != 1,
            ensures
                i == m || (t_pow == 1 && i >= 1),
                t_pow == pow(t as int, pow2(i as nat)) % pi,
                forall|j: nat| j < i ==> #[trigger] (pow(t as int, pow2(j)) % pi) != 1,
            decreases m - i,
        {
            proof {
                lemma_pow2_square(t as int, i as nat, pi);
            }
            t_pow = mod_mul(t_pow, t_pow, p);
            i += 1;
            if t_pow == 1 {
                break;
            }
        }
        if i == m {
            proof {
                if good {
                    assert(pow(t as int, pow2((m - 1) as nat)) % pi == 1);
                    assert(((m - 1) as nat) < i);
                }
            }
            return None;
        }
        proof {
            vstd::bits::lemma_u64_pow2_no_overflow((m - i - 1) as nat);
            vstd::bits::lemma_u64_shl_is_mul(1, (m - i - 1) as u64);
        }
        let b = mod_pow(c, 1u64 << (m - i - 1), p);
        proof {
            lemma_ts_step(r as int, t as int, n as int, b as int, p as int);
            if setup {
                lemma_ts_c_step(p as nat, c as int, m as nat, i as nat, b as int);
            }
            if good {
                vstd::arithmetic::power2::lemma_pow2_pos((m - i - 1) as nat);
                // t^(2^(i-1)) is a square root of one other than one
                let i1 = (i - 1) as nat;
                lemma_pow2_square(t as int, i1, pi);
                assert(i1 + 1 == i as nat);
                let y = pow(t as int, pow2(i1)) % pi;
                crate::arith::lemma_mod_range(pow(t as int, pow2(i1)), pi);
                assert(y != 1);
                crate::residues::lemma_sqrt_of_one(p as nat, y);
                lemma_ts_orders_step(p as nat, c as int, t as int, m as nat, i as nat, b as int);
            }
        }
        let ghost t_before = t as int;
        m = i;
        c = mod_mul(b, b, p);
        t = mod_mul(t, c, p);
        r = mod_mul(r, b, p);
        proof {
            if ni % pi == 0 {
                assert(t_before == 0);
                assert(0int * (c as int) == 0);
                lemma_mod_small(0, pi);
            }
            if setup && ni % pi != 0 && t == 0 {
                lemma_mod_small(t_before, pi);
                lemma_mod_small(c as int, pi);
                crate::number_theory::lemma_euclid(p as nat, t_before, c as int);
            }
        }
    }
}

/// `q` is a prime and `n` a power of two with `2n` dividing `q - 1` (and
/// fitting in 64 bits): the moduli and degrees for which a negacyclic NTT
/// exists.
pub open spec fn ntt_friendly(q: nat, n: nat) -> bool {
    &&& crate::number_theory::is_prime(q)
    &&& is_pow2(n)
    &&& 2 * n <= u64::MAX
    &&& (q - 1) % (2 * n as int) == 0
}

/// The trailing zeros of `2^e` number `e`.
proof fn lemma_trailing_zeros_pow2(x: u64, e: nat)
    requires
        e < 64,
        x == pow2(e),
    ensures
        vstd::std_specs::bits::u64_trailing_zeros(x) == e,
{
    let ee = e as u64;
    vstd::bits::lemma_u64_pow2_no_overflow(e);
    vstd::bits::lemma_u64_shl_is_mul(1, ee);
    assert(x == 1u64 << ee);
    vstd::std_specs::bits::axiom_u64_trailing_zeros(x);
    let tz = vstd::std_specs::bits::u64_trailing_zeros(x) as u64;
    assert(x != 0) by (bit_vector)
        requires
            x == 1u64 << ee,
            ee < 64,
    ;
    assert(((x >> tz) & 1u64 == 1u64) ==> tz == ee) by (bit_vector)
        requires
            x == 1u64 << ee,
            ee < 64,
            tz < 64,
    ;
}

/// A `2^(k+1)`-th root of unity `root` (with `root^(2^k) == -1`) is a
/// quadratic residue by Euler's criterion when `2^(k+2)` divides `q - 1`.
proof fn lemma_root_is_residue(q: nat, root: int, k: nat, l: nat)
    requires
        q >= 3,
        k < l,
        (q - 1) % (pow2(l + 1) as int) == 0,
        pow(root, pow2(k)) % (q as int) == q - 1,
    ensures
        pow(root, ((q - 1) / 2) as nat) % (q as int) == 1,
{
    let qi = q as int;
    vstd::arithmetic::power2::lemma_pow2_pos(l + 1);
    let w = ((q - 1) as int) / (pow2(l + 1) as int);
    vstd::arithmetic::div_mod::lemma_fundamental_div_mod((q - 1) as int, pow2(l + 1) as int);
    let rest = pow2((l - k - 1) as nat);
    vstd::arithmetic::power2::lemma_pow2_adds(k + 1, (l - k - 1) as nat);
    assert((k + 1 + (l - k - 1)) as nat == l);
    lemma_pow2_unfold(l + 1);
    assert(w >= 0) by (nonlinear_arith)
        requires
            (q - 1) as int == pow2(l + 1) * w,
            pow2(l + 1) > 0,
            q >= 3,
    ;
    let mult = (rest * w) as nat;
    assert(((q - 1) / 2) as nat == pow2(k + 1) * mult) by (nonlinear_arith)
        requires
            (q - 1) as int == pow2(l + 1) * w,
            pow2(l + 1) == 2 * pow2(l),
            pow2(l) == pow2(k + 1) * rest,
            mult == rest * w,
            w >= 0,
    ;
    // root^(2^(k+1)) == (-1)^2 == 1
    lemma_pow2_square(root, k, qi);
    assert((qi - 1) * (qi - 1) == 1 + qi * (qi - 2)) by (nonlinear_arith);
    crate::arith::lemma_mod_add_multiple(1, qi - 2, qi);
    lemma_mod_small(1, qi);
    assert(pow(root, pow2(k + 1)) % qi == 1);
    lemma_pow_mod_pow(root, pow2(k + 1), mult, qi);
    vstd::arithmetic::power::lemma1_pow(mult);
}

/// A square root `v` of a `2^(k+1)`-th root of unity `root` with
/// `root^(2^k) == -1` is a `2^(k+2)`-th one with `v^(2^(k+1)) == -1`.
proof fn lemma_sqrt_doubles_order(q: nat, root: int, v: int, k: nat)
    requires
        q >= 3,
        0 <= root < q,
        (v * v) % (q as int) == root,
        pow(root, pow2(k)) % (q as int) == q - 1,
    ensures
        pow(v, pow2(k + 1)) % (q as int) == q - 1,
{
    let qi = q as int;
    lemma_pow2_unfold(k + 1);
    crate::arith::lemma_pow_even(v, pow2(k));
    assert(2 * pow2(k) == pow2(k + 1));
    crate::arith::lemma_pow_mod_base(v * v, pow2(k), qi);
}

/// A primitive `2n`-th root of unity `psi` modulo `q`: `psi^(2n) == 1` and
/// `psi^n == q - 1`.
///
/// Starts from `q - 1` (a primitive square root of one) and takes repeated
/// Tonelli-Shanks square roots. Fails with `NttUnsupported` when `2n`
/// overflows, when `q < 3` or `2n` does not divide `q - 1`, when no quadratic
/// non-residue exists below `q`, when a square root is not found, or when the
/// result does not have the two defining properties. For a prime `q` and a
/// power of two `n` with `2n` dividing `q - 1` it always succeeds.
pub fn primitive_root_of_unity(q: u64, n: usize) -> (r: Result<u64, MathError>)
    requires
        n > 0 || q < 3,
    ensures
        (2 * n > u64::MAX || q < 3 || (q - 1) % (2 * n) != 0) ==> r == Err::<u64, MathError>(
            (MathError::NttUnsupported { modulus: q, degree: n }),
        ),
        r matches Ok(psi) ==> is_negacyclic_root(psi as int, n as nat, q as int) && 2 * n
            <= u64::MAX && q >= 3 && (q - 1) % (2 * n) == 0,
        r matches Err(e) ==> e == (MathError::NttUnsupported { modulus: q, degree: n }),
        ntt_friendly(q as nat, n as nat) ==> r is Ok,
{
    let ghost good = ntt_friendly(q as nat, n as nat);
    let ghost qi = q as int;
    let two_n = match 2u64.checked_mul(n as u64) {
        Some(v) => v,
        None => {
            return Err(MathError::NttUnsupported { modulus: q, degree: n });
        },
    };
    if q < 3 || (q - 1) % two_n != 0 {
        proof {
            if good && q < 3 {
                assert(n >= 1);
                lemma_mod_small(1, 2 * n as int);
            }
        }
        return Err(MathError::NttUnsupported { modulus: q, degree: n });
    }
    // q - 1 == odd_part * 2^two_adicity
    let mut odd_part = q - 1;
    let mut two_adicity = 0u64;
    proof {
        vstd::arithmetic::power2::lemma2_to64();
        assert(pow2(0) == 1);
        assert(odd_part * 1 == odd_part);
    }
    while odd_part % 2 == 0
        invariant
            q >= 3,
            odd_part > 0,
            odd_part <= q - 1,
            odd_part * pow2(two_adicity as nat) == q - 1,
            two_adicity < 64,
        decreases odd_part,
    {
        proof {
            let k = two_adicity as nat;
            lemma_pow2_unfold(k + 1);
            assert((odd_part / 2) * pow2(k + 1) == q - 1) by (nonlinear_arith)
                requires
                    odd_part * pow2(k) == q - 1,
                    pow2(k + 1) == 2 * pow2(k),
                    odd_part % 2 == 0,
            ;
            vstd::arithmetic::power2::lemma_pow2_pos(k + 1);
            assert(pow2(k + 1) <= q - 1) by (nonlinear_arith)
                requires
                    (odd_part / 2) * pow2(k + 1) == q - 1,
                    odd_part / 2 >= 1,
                    pow2(k + 1) > 0,
            ;
            if k + 1 >= 64 {
                vstd::arithmetic::power2::lemma2_to64_rest();
                if k + 1 > 64 {
                    vstd::arithmetic::power2::lemma_pow2_strictly_increases(64, k + 1);
                }
            }
        }
        odd_part = odd_part / 2;
        two_adicity = two_adicity + 1;
    }
    proof {
        if good {
            // an odd prime: q - 1 is even, so at least one halving happened
            assert(q % 2 != 0);
            if two_adicity == 0 {
                assert(odd_part * 1 == odd_part);
            }
        }
    }
    // the smallest quadratic non-residue below q
    let exp = (q - 1) / 2;
    let mut cand = 2u64;
    while cand < q
        invariant
            q >= 3,
            2 <= cand <= q,
            exp == (q - 1) / 2,
            qi == q,
            forall|c: int| 2 <= c < cand ==> #[trigger] pow(c, exp as nat) % qi != q - 1,
        ensures
            cand < q ==> pow(cand as int, exp as nat) % qi == q - 1,
        decreases q - cand,
    {
        if mod_pow(cand, exp, q) == q - 1 {
            break;
        }
        cand += 1;
    }
    if cand >= q {
        proof {
            if good {
                crate::residues::lemma_nonresidue_exists(q as nat);
                let z0 = choose|z: int|
                    2 <= z < q && #[trigger] pow(z, ((q - 1) / 2) as nat) % qi == q - 1;
                assert(pow(z0, exp as nat) % qi != q - 1);
            }
        }
        return Err(MathError::NttUnsupported { modulus: q, degree: n });
    }
    let z = cand;
    let tz = two_n.trailing_zeros();
    let ghost l: nat = crate::bitrev::log2(n as nat);
    proof {
        vstd::std_specs::bits::axiom_u64_trailing_zeros(two_n);
        if tz == 0 {
            assert((two_n >> 0u64) & 1u64 == 0u64) by (bit_vector)
                requires
                    two_n % 2 == 0,
            ;
        }
        if good {
            crate::bitrev::lemma_pow2_of_log2(n as nat);
            lemma_pow2_unfold(l + 1);
            if l + 1 >= 64 {
                vstd::arithmetic::power2::lemma2_to64_rest();
                if l + 1 > 64 {
                    vstd::arithmetic::power2::lemma_pow2_strictly_increases(64, l + 1);
                }
            }
            lemma_trailing_zeros_pow2(two_n, l + 1);
        }
    }
    let num_iters = tz - 1;
    let mut root = q - 1;
    let mut k = 0u32;
    proof {
        if good {
            crate::arith::lemma_pow_succ(qi - 1, 0);
            lemma_mod_small(qi - 1, qi);
        }
    }
    while k < num_iters
        invariant
            q >= 3,
            odd_part % 2 == 1,
            odd_part < u64::MAX,
            two_adicity < 64,
            root < q,
            k <= num_iters,
            qi == q,
            good == ntt_friendly(q as nat, n as nat),
            good ==> {
                &&& crate::number_theory::is_prime(q as nat)
                &&& two_adicity >= 1
                &&& odd_part * pow2(two_adicity as nat) == q - 1
                &&& pow(z as int, ((q - 1) / 2) as nat) % qi == q - 1
                &&& num_iters == l
                &&& n == pow2(l)
                &&& two_n == pow2(l + 1)
                &&& (q - 1) % (pow2(l + 1) as int) == 0
                &&& pow(root as int, pow2(k as nat)) % qi == q - 1
            },
        decreases num_iters - k,
    {
        proof {
            if good {
                lemma_root_is_residue(q as nat, root as int, k as nat, l);
            }
        }
        match tonelli_shanks_sqrt(q, odd_part, two_adicity, z, root) {
            Some(v) => {
                proof {
                    if good {
                        lemma_mod_small(root as int, qi);
                        lemma_sqrt_doubles_order(q as nat, root as int, v as int, k as nat);
                    }
                }
                root = v;
            },
            None => {
                return Err(MathError::NttUnsupported { modulus: q, degree: n });
            },
        }
        k += 1;
    }
    proof {
        if good {
            vstd::arithmetic::power2::lemma_pow2_pos(l);
            lemma_pow2_square(root as int, l, qi);
            assert((qi - 1) * (qi - 1) == 1 + qi * (qi - 2)) by (nonlinear_arith);
            crate::arith::lemma_mod_add_multiple(1, qi - 2, qi);
            lemma_mod_small(1, qi);
        }
    }
    if mod_pow(root, two_n, q) != 1 || mod_pow(root, n as u64, q) != q - 1 {
        return Err(MathError::NttUnsupported { modulus: q, degree: n });
    }
    Ok(root)
}

impl NttPlan {
    /// The plan holds exactly the tables built from the root `psi`: `root == psi^2`,
    /// `root_inv == root^(q-2)`, `inv_degree == degree^(q-2)`, the powers of `psi`
    /// and of `psi^(q-2)`, all modulo `q`.
    pub open spec fn built_from(&self, psi: int) -> bool {
        let q = self.modulus as int;
        let n = self.degree as nat;
        let psi_inv = pow(psi, (q - 2) as nat) % q;
        &&& self.root == (psi * psi) % q
        &&& self.root_inv == pow(self.root as int, (q - 2) as nat) % q
        &&& self.inv_degree == pow(n as int, (q - 2) as nat) % q
        &&& forall|j: int| 0 <= j < n ==> #[trigger] self.psi_powers@[j] == pow(psi, j as nat) % q
        &&& forall|j: int|
            0 <= j < n ==> #[trigger] self.psi_inv_powers@[j] == pow(psi_inv, j as nat) % q
    }

    /// Build the negacyclic plan for `modulus` and `degree`.
    ///
    /// Fails with `DegreeNotPowerOfTwo` exactly when `degree` is not a power of
    /// two, and otherwise with `NttUnsupported` when no primitive `2*degree`-th
    /// root of unity is found (always when `modulus < 3` or `2*degree` does not
    /// divide `modulus - 1`). Succeeds for every prime modulus with
    /// `2*degree` dividing `modulus - 1`.
    pub fn new(modulus: u64, degree: usize) -> (r: Result<Self, MathError>)
        ensures
            r matches Err(MathError::DegreeNotPowerOfTwo(d)) ==> d == degree && !is_pow2(
                degree as nat,
            ),
            !is_pow2(degree as nat) ==> r matches Err(MathError::DegreeNotPowerOfTwo(_)),
            r matches Err(e) ==> e == MathError::DegreeNotPowerOfTwo(degree) || e
                == (MathError::NttUnsupported { modulus, degree }),
            is_pow2(degree as nat) && (modulus < 3 || (modulus - 1) % (2 * degree) != 0)
                ==> r == Err::<NttPlan, MathError>((MathError::NttUnsupported { modulus, degree })),
            r matches Ok(plan) ==> (plan.wf() && plan.modulus == modulus && plan.degree == degree
                && plan.twists_invertible() && modulus >= 3 && (modulus - 1) % (2 * degree) == 0
                && (exists|psi: int|
                is_negacyclic_root(psi, degree as nat, modulus as int) && plan.built_from(psi))),
            r matches Ok(plan) ==> (crate::number_theory::is_prime(modulus as nat) ==> plan.invertible()),
            ntt_friendly(modulus as nat, degree as nat) ==> r is Ok,
    {
        proof {
            crate::arith::lemma_pow2_bit_test(degree as u64);
        }
        let d64 = degree as u64;
        if degree == 0 || d64 & (d64 - 1) != 0 {
            return Err(MathError::DegreeNotPowerOfTwo(degree));
        }
        let psi = match primitive_root_of_unity(modulus, degree) {
            Ok(v) => v,
            Err(e) => {
                return Err(e);
            },
        };
        let ghost q = modulus as int;
        let ghost n = degree as nat;
        proof {
            // psi and psi^2 are nonzero since psi^n == q - 1 and psi^(2n) == 1
            if psi == 0 {
                vstd::arithmetic::power::lemma0_pow(n);
                lemma_mod_small(0, q);
            }
            crate::arith::lemma_pow_even(psi as int, n);
            crate::arith::lemma_pow_mod_base(psi * psi, n, q);
            if (psi * psi) % q == 0 {
                vstd::arithmetic::power::lemma0_pow(n);
                lemma_mod_small(0, q);
            }
        }
        let psi_inv = mod_inv(psi, modulus);
        let root = mod_mul(psi, psi, modulus);
        let root_inv = mod_inv(root, modulus);
        let inv_degree = mod_inv(degree as u64, modulus);
        let psi_powers = powers(psi, degree, modulus);
        let psi_inv_powers = powers(psi_inv, degree, modulus);
        let dif_stages = build_dif_stage_twiddles(root, degree, modulus);
        let ghost layers = dif_stages.len() as nat;
        let dit_stages = build_dit_stage_twiddles(root_inv, degree, modulus, Ghost(layers));
        let plan = NttPlan {
            modulus,
            degree,
            root,
            root_inv,
            inv_degree,
            psi_powers,
            psi_inv_powers,
            dif_stages,
            dit_stages,
        };
        proof {
            lemma_pow_succ(psi as int, 0);
            lemma_pow_succ(psi_inv as int, 0);
            lemma_mod_small(1, q);
            assert forall|j: int| 0 <= j < n implies #[trigger] plan.psi_powers@[j] == pow(psi as int, j as nat) % q by {}
            assert forall|j: int| 0 <= j < n implies #[trigger] plan.psi_inv_powers@[j] == pow(psi_inv as int, j as nat) % q by {}
            assert(crate::ntt_spec::reduced(plan.psi_powers@, q)) by {
                assert forall|j: int| 0 <= j < plan.psi_powers@.len() implies #[trigger] plan.psi_powers@[j] < q by {
                    lemma_mod_range(pow(psi as int, j as nat), q);
                }
            }
            assert(crate::ntt_spec::reduced(plan.psi_inv_powers@, q)) by {
                assert forall|j: int| 0 <= j < plan.psi_inv_powers@.len() implies #[trigger] plan.psi_inv_powers@[j] < q by {
                    lemma_mod_range(pow(psi_inv as int, j as nat), q);
                }
            }
            assert(plan.wf());
            assert(plan.built_from(psi as int));
            // inverses
            assert(2 * n > 0);
            crate::arith::lemma_pow_inverse_by_order(psi as int, 2 * n, q);
            assert((psi * psi_inv) % q == 1);
            crate::arith::lemma_pow_even(psi as int, (q - 1) as nat);
            crate::arith::lemma_pow_mod_base(psi * psi, (q - 1) as nat, q);
            let tn: int = 2 * n as int;
            assert((2 * (q - 1)) % tn == 0) by {
                vstd::arithmetic::div_mod::lemma_fundamental_div_mod(q - 1, tn);
                let kk = (q - 1) / tn;
                assert(2 * (q - 1) == (2 * kk) * tn) by (nonlinear_arith)
                    requires
                        q - 1 == tn * kk + (q - 1) % tn,
                        (q - 1) % tn == 0,
                ;
                vstd::arithmetic::div_mod::lemma_mod_multiples_basic(2 * kk, tn);
            }
            crate::arith::lemma_pow_order(psi as int, 2 * n, (2 * (q - 1)) as nat, q);
            assert(pow(root as int, (q - 1) as nat) % q == 1);
            assert(pow(root as int, 1) % q == 1 || true);
            crate::arith::lemma_mod_mul_both(root as int, pow(root as int, (q - 2) as nat), q);
            lemma_pow_succ(root as int, (q - 2) as nat);
            assert((q - 2) as nat + 1 == (q - 1) as nat);
            assert((root * root_inv) % q == 1);
            assert forall|k: int| 0 <= k < plan.degree implies (#[trigger] plan.psi_powers@[k] as int
                * plan.psi_inv_powers@[k] as int) % q == 1 by {
                crate::arith::lemma_pow_inverse(psi as int, psi_inv as int, k as nat, q);
            }
            if crate::number_theory::is_prime(modulus as nat) {
                // 2n divides q - 1, so 0 < n < q
                vstd::arithmetic::div_mod::lemma_fundamental_div_mod(q - 1, tn);
                assert(n < q) by (nonlinear_arith)
                    requires
                        q - 1 == tn * ((q - 1) / tn) + (q - 1) % tn,
                        (q - 1) % tn == 0,
                        tn == 2 * n,
                        n > 0,
                        q >= 3,
                ;
                lemma_mod_small(n as int, q);
                crate::fermat::lemma_mod_inv_inverts(n, modulus as nat);
                assert((inv_degree * n) as int == (n as int) * (inv_degree as int)) by (nonlinear_arith);
            }
        }
        Ok(plan)
    }
}

/// One NTT plan of the given degree per modulus of a modulus chain, in order.
///
/// Fails with the error of the first modulus for which `NttPlan::new` fails;
/// succeeds when every modulus is a prime that the degree is friendly to. Each
/// plan is the negacyclic one of `NttPlan::new`: its twists are the powers of a
/// primitive `2*degree`-th root of unity modulo its modulus.
pub fn ntt_plans_for_moduli(moduli: &[u64], degree: usize) -> (r: Result<Vec<NttPlan>, MathError>)
    ensures
        r matches Ok(plans) ==> plans.len() == moduli@.len() && forall|i: int|
            0 <= i < plans.len() ==> {
                let p = #[trigger] plans[i];
                &&& p.wf()
                &&& p.modulus == moduli@[i]
                &&& p.degree == degree
                &&& (crate::number_theory::is_prime(p.modulus as nat) ==> p.invertible())
                &&& exists|psi: int|
                    is_negacyclic_root(psi, degree as nat, p.modulus as int) && p.built_from(psi)
            },
        r matches Err(e) ==> exists|i: int|
            0 <= i < moduli@.len() && (e == MathError::DegreeNotPowerOfTwo(degree) || e
                == (MathError::NttUnsupported { modulus: #[trigger] moduli@[i], degree })),
        moduli@.len() > 0 && !is_pow2(degree as nat) ==> r == Err::<Vec<NttPlan>, MathError>(
            MathError::DegreeNotPowerOfTwo(degree),
        ),
        (forall|i: int|
            0 <= i < moduli@.len() ==> ntt_friendly(#[trigger] moduli@[i] as nat, degree as nat))
            ==> r is Ok,
{
    let mut plans: Vec<NttPlan> = Vec::new();
    let mut i = 0usize;
    while i < moduli.len()
        invariant
            i <= moduli@.len(),
            plans.len() == i,
            i > 0 ==> is_pow2(degree as nat),
            forall|k: int|
                0 <= k < i ==> {
                    let p = #[trigger] plans[k];
                    &&& p.wf()
                    &&& p.modulus == moduli@[k]
                    &&& p.degree == degree
                    &&& (crate::number_theory::is_prime(p.modulus as nat) ==> p.invertible())
                    &&& exists|psi: int|
                        is_negacyclic_root(psi, degree as nat, p.modulus as int) && p.built_from(
                            psi,
                        )
                },
        decreases moduli@.len() - i,
    {
        match NttPlan::new(moduli[i], degree) {
            Ok(p) => {
                plans.push(p);
            },
            Err(e) => {
                return Err(e);
            },
        }
        i += 1;
    }
    Ok(plans)
}
} // verus!
