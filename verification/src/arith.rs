//! Arithmetic facts about remainders and powers used throughout the crate.

use vstd::arithmetic::div_mod::*;
use vstd::arithmetic::mul::*;
use vstd::arithmetic::power::*;
use vstd::arithmetic::power2::{lemma_pow2_unfold, pow2};
use vstd::prelude::*;
use vstd::std_specs::bits::u64_leading_zeros;

verus! {

/// A value already in `[0, m)` is its own remainder.
pub proof fn lemma_mod_small(x: int, m: int)
    requires
        0 <= x < m,
    ensures
        x % m == x,
{
    lemma_small_mod(x as nat, m as nat);
}

/// A value in `[m, 2m)` reduces by a single subtraction.
pub proof fn lemma_mod_sub_once(x: int, m: int)
    requires
        0 < m <= x < 2 * m,
    ensures
        x % m == x - m,
{
    lemma_fundamental_div_mod_converse(x, m, 1, x - m);
}

/// Adding a multiple of `m` does not change the remainder.
pub proof fn lemma_mod_add_multiple(x: int, k: int, m: int)
    requires
        m > 0,
    ensures
        (x + k * m) % m == x % m,
{
    lemma_mod_multiples_vanish(k, x, m);
    assert(m * k == k * m) by {
        lemma_mul_is_commutative(m, k);
    }
}

/// Remainders of a sum depend only on the remainders of the summands.
pub proof fn lemma_mod_add_both(x: int, y: int, m: int)
    requires
        m > 0,
    ensures
        (x % m + y % m) % m == (x + y) % m,
        (x % m + y) % m == (x + y) % m,
        (x + y % m) % m == (x + y) % m,
{
    lemma_add_mod_noop(x, y, m);
    lemma_add_mod_noop(x % m, y, m);
    lemma_add_mod_noop(x, y % m, m);
    lemma_mod_twice(x, m);
    lemma_mod_twice(y, m);
}

/// Remainders of a difference depend only on the remainders of the operands.
pub proof fn lemma_mod_sub_both(x: int, y: int, m: int)
    requires
        m > 0,
    ensures
        (x % m - y % m) % m == (x - y) % m,
        (x % m - y) % m == (x - y) % m,
        (x - y % m) % m == (x - y) % m,
{
    lemma_sub_mod_noop(x, y, m);
    lemma_sub_mod_noop(x % m, y, m);
    lemma_sub_mod_noop(x, y % m, m);
    lemma_mod_twice(x, m);
    lemma_mod_twice(y, m);
}

/// Remainders of a product depend only on the remainders of the factors.
pub proof fn lemma_mod_mul_both(x: int, y: int, m: int)
    requires
        m > 0,
    ensures
        ((x % m) * (y % m)) % m == (x * y) % m,
        ((x % m) * y) % m == (x * y) % m,
        (x * (y % m)) % m == (x * y) % m,
{
    lemma_mul_mod_noop_general(x, y, m);
}

/// Remainders lie in `[0, m)`.
pub proof fn lemma_mod_range(x: int, m: int)
    requires
        m > 0,
    ensures
        0 <= x % m < m,
{
    lemma_mod_bound(x, m);
}

/// Taking a remainder twice is the same as taking it once.
pub proof fn lemma_mod_idem(x: int, m: int)
    requires
        m > 0,
    ensures
        (x % m) % m == x % m,
{
    lemma_mod_twice(x, m);
}

/// Powers of residues agree with residues of powers.
pub proof fn lemma_pow_mod_base(b: int, e: nat, m: int)
    requires
        m > 0,
    ensures
        pow(b % m, e) % m == pow(b, e) % m,
{
    lemma_pow_mod_noop(b, e, m);
}

/// `(x^a mod p)^k == x^(a * k)` modulo `p`.
pub proof fn lemma_pow_mod_pow(x: int, a: nat, k: nat, p: int)
    requires
        p > 0,
    ensures
        pow(pow(x, a) % p, k) % p == pow(x, a * k) % p,
{
    lemma_pow_mod_base(pow(x, a), k, p);
    vstd::arithmetic::power::lemma_pow_multiplies(x, a, k);
}

/// Unfolding one factor of a power.
pub proof fn lemma_pow_succ(b: int, e: nat)
    ensures
        pow(b, e + 1) == b * pow(b, e),
        pow(b, 0) == 1,
        pow(b, 1) == b,
{
    reveal(pow);
    assert(pow(b, 1) == b * pow(b, 0));
}

/// Even exponents square the base.
pub proof fn lemma_pow_even(b: int, e: nat)
    ensures
        pow(b, 2 * e) == pow(b * b, e),
{
    lemma_pow_multiplies(b, 2, e);
    lemma_pow_succ(b, 1);
    lemma_pow_succ(b, 0);
    assert(pow(b, 2) == b * b);
}

/// Reducing modulo a multiple of `q` first does not change the remainder modulo `q`.
pub proof fn lemma_mod_of_multiple(x: int, q: int, c: int)
    requires
        q > 0,
        c > 0,
    ensures
        (x % (q * c)) % q == x % q,
{
    lemma_mod_mod(x, q, c);
}

/// One Newton/Hensel step doubles the precision of an inverse modulo a power of two.
///
/// If `a*x == 1 (mod p)` then `a * (x * (2 - a*x)) == 1 (mod p^2)`, also when the
/// intermediate products are reduced modulo any multiple `r` of `p^2`.
pub proof fn lemma_hensel_step(a: int, x: int, p: int, c: int)
    requires
        p > 1,
        c > 0,
        (a * x) % p == 1,
    ensures
        ({
            let q = p * p;
            let r = q * c;
            let w1 = (a * x) % r;
            let w2 = (2 - w1) % r;
            let x2 = (x * w2) % r;
            (a * x2) % q == 1
        }),
{
    let q = p * p;
    let r = q * c;
    assert(q > 1) by (nonlinear_arith)
        requires
            p > 1,
            q == p * p,
    ;
    assert(r > 0) by (nonlinear_arith)
        requires
            q > 1,
            c > 0,
            r == q * c,
    ;
    let w1 = (a * x) % r;
    let w2 = (2 - w1) % r;
    let x2 = (x * w2) % r;
    let t = a * x;
    // reduce everything modulo q
    lemma_mod_of_multiple(x * w2, q, c);
    lemma_mod_of_multiple(2 - w1, q, c);
    lemma_mod_of_multiple(t, q, c);
    assert((a * x2) % q == (a * (x * w2)) % q) by {
        lemma_mod_mul_both(a, x * w2, q);
        lemma_mod_mul_both(a, x2, q);
    }
    assert((a * (x * w2)) % q == (t * w2) % q) by {
        lemma_mul_is_associative(a, x, w2);
    }
    assert((t * w2) % q == (t * (2 - t)) % q) by {
        lemma_mod_mul_both(t, w2, q);
        lemma_mod_mul_both(t, 2 - t, q);
        lemma_mod_sub_both(2, w1, q);
        lemma_mod_sub_both(2, t, q);
    }
    lemma_fundamental_div_mod(t, p);
    let k = t / p;
    assert(t == k * p + 1) by {
        lemma_mul_is_commutative(p, k);
    }
    assert(t * (2 - t) == 1 + (-(k * k)) * q) by (nonlinear_arith)
        requires
            t == k * p + 1,
            q == p * p,
    ;
    lemma_mod_add_multiple(1, -(k * k), q);
    lemma_mod_small(1, q);
}

/// Number of binary digits of `x` (zero for zero).
pub open spec fn bit_len(x: nat) -> nat
    decreases x,
{
    if x == 0 {
        0
    } else {
        1 + bit_len(x / 2)
    }
}

/// `bit_len` brackets a positive number between consecutive powers of two.
pub proof fn lemma_bit_len_bounds(x: nat)
    ensures
        x < pow2(bit_len(x)),
        x > 0 ==> pow2((bit_len(x) - 1) as nat) <= x,
        x > 0 ==> bit_len(x) >= 1,
    decreases x,
{
    if x == 0 {
        vstd::arithmetic::power2::lemma2_to64();
    } else {
        lemma_bit_len_bounds(x / 2);
        lemma_pow2_unfold(bit_len(x));
        if x / 2 == 0 {
            vstd::arithmetic::power2::lemma2_to64();
        } else {
            lemma_pow2_unfold(bit_len(x / 2));
        }
    }
}

/// Numbers below `2^n` have at most `n` binary digits.
pub proof fn lemma_bit_len_below(x: nat, n: nat)
    requires
        x < pow2(n),
    ensures
        bit_len(x) <= n,
    decreases n,
{
    if x > 0 {
        if n == 0 {
            vstd::arithmetic::power2::lemma2_to64();
        } else {
            lemma_pow2_unfold(n);
            lemma_bit_len_below(x / 2, (n - 1) as nat);
        }
    }
}

/// `2^128` as a literal.
pub proof fn lemma_pow2_128()
    ensures
        pow2(128) == 0x1_0000_0000_0000_0000_0000_0000_0000_0000,
        pow2(64) == 0x1_0000_0000_0000_0000,
{
    vstd::arithmetic::power2::lemma2_to64_rest();
    vstd::arithmetic::power2::lemma_pow2_adds(64, 64);
}

/// `bit_len` is monotone.
pub proof fn lemma_bit_len_mono(x: nat, y: nat)
    requires
        x <= y,
    ensures
        bit_len(x) <= bit_len(y),
    decreases y,
{
    if x > 0 {
        lemma_bit_len_mono(x / 2, y / 2);
    }
}

/// The number of leading zero bits of a `u64` complements its bit length.
pub proof fn lemma_leading_zeros_bit_len(x: u64)
    ensures
        64 - u64_leading_zeros(x) == bit_len(x as nat),
    decreases x,
{
    reveal(u64_leading_zeros);
    if x > 0 {
        lemma_leading_zeros_bit_len(x / 2);
    }
}

/// `1 << s` on 128-bit words is the power of two `2^s`.
pub proof fn lemma_u128_one_shl(s: u32)
    requires
        s < 128,
    ensures
        (1u128 << s) == pow2(s as nat),
    decreases s,
{
    if s == 0 {
        assert(1u128 << 0u32 == 1) by (bit_vector);
        vstd::arithmetic::power2::lemma2_to64();
    } else {
        lemma_u128_one_shl((s - 1) as u32);
        let t = (s - 1) as u32;
        assert(1u128 << s == (1u128 << t) * 2) by (bit_vector)
            requires
                t < 127,
                s == t + 1,
        ;
        lemma_pow2_unfold(s as nat);
    }
}

/// Shifting a 128-bit word right by `s` divides it by `2^s`.
pub proof fn lemma_u128_shr(x: u128, s: u32)
    requires
        s < 128,
    ensures
        (x >> s) as nat == (x as nat) / pow2(s as nat),
{
    let s2 = s as u128;
    assert(x >> s == x >> s2) by (bit_vector)
        requires
            s2 == s,
            s < 128,
    ;
    vstd::bits::lemma_u128_shr_is_div(x, s2);
}

/// An odd modulus cancels a factor of two.
pub proof fn lemma_odd_cancel_two(z: int, m: int)
    requires
        m > 0,
        m % 2 == 1,
        (z * 2) % m == 0,
    ensures
        z % m == 0,
{
    lemma_fundamental_div_mod(z * 2, m);
    let q = (z * 2) / m;
    assert(z * 2 == m * q);
    // q must be even, because m is odd
    lemma_fundamental_div_mod(q, 2);
    lemma_fundamental_div_mod(m, 2);
    let j = q / 2;
    let mh = m / 2;
    if q % 2 == 1 {
        assert(m * q == 2 * (2 * mh * j + mh + j) + 1) by (nonlinear_arith)
            requires
                q == 2 * j + 1,
                m == 2 * mh + 1,
        ;
        assert(false);
    }
    assert(z == j * m) by (nonlinear_arith)
        requires
            z * 2 == m * q,
            q == 2 * j + q % 2,
            q % 2 == 0,
    ;
    lemma_mod_add_multiple(0, j, m);
    lemma_mod_small(0, m);
}

/// An odd modulus cancels a power-of-two factor from a congruence.
pub proof fn lemma_odd_cancel_pow2(x: int, y: int, n: nat, m: int)
    requires
        m > 0,
        m % 2 == 1,
        (x * pow2(n)) % m == (y * pow2(n)) % m,
    ensures
        x % m == y % m,
    decreases n,
{
    let z = x - y;
    lemma_mod_equivalence(x * pow2(n), y * pow2(n), m);
    assert(x * pow2(n) - y * pow2(n) == z * pow2(n)) by (nonlinear_arith)
        requires
            z == x - y,
    ;
    if n == 0 {
        vstd::arithmetic::power2::lemma2_to64();
    } else {
        lemma_pow2_unfold(n);
        assert(z * pow2(n) == (z * pow2((n - 1) as nat)) * 2) by (nonlinear_arith)
            requires
                pow2(n) == 2 * pow2((n - 1) as nat),
        ;
        lemma_odd_cancel_two(z * pow2((n - 1) as nat), m);
        assert((z * pow2((n - 1) as nat)) % m == 0);
        assert(x * pow2((n - 1) as nat) - y * pow2((n - 1) as nat) == z * pow2((n - 1) as nat))
            by (nonlinear_arith)
            requires
                z == x - y,
        ;
        lemma_mod_equivalence(x * pow2((n - 1) as nat), y * pow2((n - 1) as nat), m);
        lemma_odd_cancel_pow2(x, y, (n - 1) as nat, m);
    }
    lemma_mod_equivalence(x, y, m);
}

/// Block lengths of the butterfly layers of a transform of length `2^layers`.
pub proof fn lemma_stage_len(layers: nat, l: nat)
    requires
        l < layers,
    ensures
        pow2(layers) / pow2(l) == pow2((layers - l) as nat),
        pow2(layers) / pow2(l) >= 2,
        (pow2(layers) / pow2(l)) % 2 == 0,
        pow2(layers) % (pow2(layers) / pow2(l)) == 0,
        (pow2(layers) / pow2(l)) / 2 == pow2(layers) / pow2(l + 1),
        pow2(layers) / pow2(l + 1) == pow2((layers - l - 1) as nat),
{
    let d = (layers - l) as nat;
    vstd::arithmetic::power2::lemma_pow2_subtracts(l, layers);
    vstd::arithmetic::power2::lemma_pow2_subtracts(l + 1, layers);
    lemma_pow2_unfold(d);
    vstd::arithmetic::power2::lemma_pow2_pos((d - 1) as nat);
    vstd::arithmetic::power2::lemma_pow2_adds(l, d);
    assert((l + d) as nat == layers);
    vstd::arithmetic::div_mod::lemma_mod_multiples_basic(pow2(l) as int, pow2(d) as int);
    assert(pow2(l) * pow2(d) == pow2(d) * pow2(l)) by (nonlinear_arith);
    assert((layers - (l + 1)) as nat == (d - 1) as nat);
    lemma_mod_add_multiple(0, pow2((d - 1) as nat) as int, 2);
    lemma_mod_small(0, 2);
}


/// Multiplying a residue by a unit congruent to one leaves it unchanged.
pub proof fn lemma_mod_unit(x: int, u: int, q: int)
    requires
        q > 0,
        u % q == 1,
        0 <= x < q,
    ensures
        (x * u) % q == x,
{
    lemma_mod_mul_both(x, u, q);
    lemma_mod_small(x, q);
}

/// Multiplying by `p` and then by an inverse of `p` gives the residue back.
pub proof fn lemma_mod_mul_cancel(x: int, p: int, pi: int, q: int)
    requires
        q > 0,
        (p * pi) % q == 1,
        0 <= x < q,
    ensures
        (((x * p) % q) * pi) % q == x,
{
    lemma_mod_mul_both(x * p, pi, q);
    assert(x * p * pi == x * (p * pi)) by (nonlinear_arith);
    lemma_mod_unit(x, p * pi, q);
}

/// Powers of mutually inverse residues are mutually inverse.
pub proof fn lemma_pow_inverse(a: int, b: int, e: nat, q: int)
    requires
        q > 1,
        (a * b) % q == 1,
    ensures
        ((pow(a, e) % q) * (pow(b, e) % q)) % q == 1,
{
    lemma_mod_mul_both(pow(a, e), pow(b, e), q);
    lemma_pow_distributes(a, b, e);
    lemma_pow_mod_noop(a * b, e, q);
    lemma1_pow(e);
    lemma_mod_small(1, q);
}

/// `x` is a power of two.
pub open spec fn is_pow2(x: nat) -> bool
    decreases x,
{
    if x == 1 {
        true
    } else if x == 0 || x % 2 == 1 {
        false
    } else {
        is_pow2(x / 2)
    }
}

/// Every `2^k` is a power of two, and a power of two equals `2^k` for some `k`.
pub proof fn lemma_is_pow2_pow2(k: nat)
    ensures
        is_pow2(pow2(k)),
    decreases k,
{
    if k > 0 {
        lemma_pow2_unfold(k);
        vstd::arithmetic::power2::lemma_pow2_pos((k - 1) as nat);
        lemma_is_pow2_pow2((k - 1) as nat);
        assert(pow2(k) / 2 == pow2((k - 1) as nat));
        assert(pow2(k) % 2 == 0);
    } else {
        vstd::arithmetic::power2::lemma2_to64();
    }
}

/// The bit test used on `usize` values decides whether they are powers of two.
pub proof fn lemma_pow2_bit_test(x: u64)
    ensures
        (x > 0 && x & ((x - 1) as u64) == 0) <==> is_pow2(x as nat),
    decreases x,
{
    if x > 1 {
        assert(x > 1 ==> (x & ((x - 1) as u64) == 0 <==> (x % 2 == 0 && (x / 2) & ((x / 2 - 1) as u64) == 0)))
            by (bit_vector);
        lemma_pow2_bit_test(x / 2);
    } else if x == 1 {
        assert(1u64 & 0u64 == 0) by (bit_vector);
    }
}

/// A power of two above one is even and its half is a power of two; the only
/// power of two below two is one.
pub proof fn lemma_is_pow2_half(x: nat)
    requires
        is_pow2(x),
    ensures
        x >= 1,
        x > 1 ==> x % 2 == 0 && is_pow2(x / 2),
        x < 2 ==> x == 1,
{
}

/// If `a^e == 1 (mod q)` then `a^m == 1 (mod q)` for every multiple `m` of `e`.
pub proof fn lemma_pow_order(a: int, e: nat, m: nat, q: int)
    requires
        q > 1,
        e > 0,
        pow(a, e) % q == 1,
        m % e == 0,
    ensures
        pow(a, m) % q == 1,
{
    let k = m / e;
    lemma_fundamental_div_mod(m as int, e as int);
    assert(m == e * k);
    lemma_pow_multiplies(a, e, k);
    lemma_pow_mod_noop(pow(a, e), k, q);
    lemma1_pow(k);
    lemma_mod_small(1, q);
}

/// `a * a^(q-2) == 1 (mod q)` whenever `a^e == 1 (mod q)` for a divisor `e` of `q - 1`.
pub proof fn lemma_pow_inverse_by_order(a: int, e: nat, q: int)
    requires
        q > 2,
        e > 0,
        pow(a, e) % q == 1,
        (q - 1) % (e as int) == 0,
    ensures
        (a * (pow(a, (q - 2) as nat) % q)) % q == 1,
{
    lemma_mod_mul_both(a, pow(a, (q - 2) as nat), q);
    lemma_pow_succ(a, (q - 2) as nat);
    assert((q - 2) as nat + 1 == (q - 1) as nat);
    lemma_pow_order(a, e, (q - 1) as nat, q);
}
} // verus!
