//! Modular arithmetic primitives: reduced addition, subtraction and
//! multiplication, fast exponentiation and modular inverses.

use crate::arith::{
    lemma_mod_add_both, lemma_mod_idem, lemma_mod_mul_both, lemma_mod_range, lemma_mod_small,
    lemma_mod_sub_once, lemma_pow_even, lemma_pow_mod_base, lemma_pow_succ, lemma_hensel_step, lemma_mod_of_multiple, bit_len, lemma_bit_len_bounds,
    lemma_bit_len_mono, lemma_leading_zeros_bit_len, lemma_u128_one_shl, lemma_u128_shr, lemma_mod_sub_both, lemma_pow2_128,
};
use crate::number_theory::{
    ext_gcd, gcd, is_prime, lemma_divides_trans, lemma_euclid, lemma_ext_gcd, lemma_mod_is_zero_le,
    lemma_prime_if_no_small_divisor,
};
use vstd::arithmetic::div_mod::{lemma_fundamental_div_mod, lemma_mod_bound};
use vstd::arithmetic::power::pow;
use vstd::arithmetic::power2::{lemma2_to64, lemma2_to64_rest, lemma_pow2_adds, pow2};
use vstd::bits::{
    lemma_u64_low_bits_mask_is_mod, lemma_u64_pow2_no_overflow, lemma_u64_shl_is_mul, low_bits_mask,
};
use crate::error::MathError;
use vstd::prelude::*;

verus! {

/// Compute `(a + b) mod m` for reduced inputs, without overflowing for any `m`.
pub fn mod_add(a: u64, b: u64, m: u64) -> (r: u64)
    requires
        a < m,
        b < m,
    ensures
        r == (a + b) % (m as int),
{
    if a >= m - b {
        proof {
            lemma_mod_sub_once(a + b, m as int);
        }
        a - (m - b)
    } else {
        proof {
            lemma_mod_small(a + b, m as int);
        }
        a + b
    }
}

/// Compute `(a - b) mod m` for reduced inputs, without overflowing for any `m`.
pub fn mod_sub(a: u64, b: u64, m: u64) -> (r: u64)
    requires
        a < m,
        b < m,
    ensures
        r == (a - b) % (m as int),
{
    if a >= b {
        proof {
            lemma_mod_small(a - b, m as int);
        }
        a - b
    } else {
        proof {
            lemma_mod_small(a - b + m, m as int);
            crate::arith::lemma_mod_add_multiple(a - b, 1, m as int);
        }
        a + (m - b)
    }
}

/// Compute `(a * b) mod m` through a 128-bit intermediate product.
pub fn mod_mul(a: u64, b: u64, m: u64) -> (r: u64)
    requires
        m > 0,
    ensures
        r == (a * b) % (m as int),
{
    proof {
        assert(0 <= (a as int) * (b as int) <= (u64::MAX as int) * (u64::MAX as int))
            by (nonlinear_arith);
        lemma_mod_range(a * b, m as int);
    }
    ((a as u128 * b as u128) % m as u128) as u64
}

/// Compute `base^exp mod m` by right-to-left binary exponentiation.
///
/// The result is `base^exp mod m` for every exponent, so `0` for `m == 1`.
pub fn mod_pow(base: u64, exp: u64, m: u64) -> (r: u64)
    requires
        m > 0,
    ensures
        r == pow(base as int, exp as nat) % (m as int),
        r < m,
{
    let ghost b0 = base as int;
    let ghost e0 = exp as nat;
    let ghost mm = m as int;
    let mut base = base;
    let mut exp = exp;
    let mut result = 1u64 % m;
    base = base % m;
    proof {
        lemma_mod_range(1, mm);
        lemma_mod_mul_both(1, pow(b0 % mm, e0), mm);
        lemma_pow_succ(b0 % mm, 0);
        lemma_pow_mod_base(b0, e0, mm);
        assert((1 * pow(base as int, exp as nat)) % mm == pow(b0, e0) % mm);
    }
    while exp > 0
        invariant
            mm == m as int,
            mm > 0,
            base < m,
            (result as int * pow(base as int, exp as nat)) % mm == pow(b0, e0) % mm,
            result < m,
            exp <= e0,
        decreases exp,
    {
        let ghost old_result = result as int;
        let ghost old_base = base as int;
        let ghost old_exp = exp as nat;
        let half = exp / 2;
        proof {
            assert(exp & 1 == exp % 2) by (bit_vector);
            assert(exp >> 1 == exp / 2) by (bit_vector);
        }
        if exp & 1 == 1 {
            result = mod_mul(result, base, m);
            proof {
                // result' * base^(exp-1) == result * base^exp  (mod m)
                lemma_pow_succ(old_base, (old_exp - 1) as nat);
                assert(old_result * pow(old_base, old_exp) == (old_result * old_base) * pow(
                    old_base,
                    (old_exp - 1) as nat,
                )) by (nonlinear_arith)
                    requires
                        pow(old_base, old_exp) == old_base * pow(
                            old_base,
                            (old_exp - 1) as nat,
                        ),
                ;
                lemma_mod_mul_both(old_result * old_base, pow(old_base, (old_exp - 1) as nat), mm);
                assert((result as int * pow(old_base, (old_exp - 1) as nat)) % mm == pow(b0, e0)
                    % mm);
            }
        }
        proof {
            // Now result * base^(2*half) == target (mod m)
            let r = result as int;
            assert((r * pow(old_base, 2 * (half as nat))) % mm == pow(b0, e0) % mm) by {
                if old_exp % 2 == 1 {
                    assert((old_exp - 1) as nat == 2 * (half as nat));
                } else {
                    assert(old_exp == 2 * (half as nat));
                }
            }
            lemma_pow_even(old_base, half as nat);
            lemma_pow_mod_base(old_base * old_base, half as nat, mm);
            lemma_mod_mul_both(r, pow(old_base * old_base, half as nat), mm);
            lemma_mod_mul_both(r, pow((old_base * old_base) % mm, half as nat), mm);
        }
        base = mod_mul(base, base, m);
        exp = exp >> 1;
    }
    proof {
        lemma_pow_succ(base as int, 0);
        lemma_mod_small(result as int, mm);
    }
    result
}

/// Modular inverse modulo a prime, computed as `a^(m-2) mod m`
/// (Fermat's little theorem).
pub fn mod_inv(a: u64, m: u64) -> (r: u64)
    requires
        a != 0,
        m >= 2,
    ensures
        r == pow(a as int, (m - 2) as nat) % (m as int),
        r < m,
{
    proof {
        lemma_pow_succ(a as int, 0);
        lemma_mod_small(1, m as int);
    }
    mod_pow(a, m - 2, m)
}

/// Extended Euclidean algorithm: returns `(g, x, y)` with `a*x + b*y == g == gcd(a, b)`.
pub fn extend_gcd(a: u64, b: u64) -> (r: (u64, i128, i128))
    ensures
        (r.0 as nat, r.1 as int, r.2 as int) == ext_gcd(a as nat, b as nat),
        r.0 == gcd(a as nat, b as nat),
        a * r.1 + b * r.2 == r.0,
    decreases b,
{
    proof {
        lemma_ext_gcd(a as nat, b as nat);
    }
    if b == 0 {
        return (a, 1, 0);
    }
    let (res, x1, y1) = extend_gcd(b, a % b);
    let q = (a / b) as i128;
    proof {
        lemma_ext_gcd(b as nat, (a % b) as nat);
        lemma_fundamental_div_mod(a as int, b as int);
        lemma_mod_bound(a as int, b as int);
        let qi = q as int;
        let r = (a % b) as int;
        assert(qi * (b as int) <= a) by (nonlinear_arith)
            requires
                a == b * qi + r,
                r >= 0,
        ;
        assert(-(b as int) <= y1 <= b);
        assert(-(a as int) <= qi * y1 <= a) by (nonlinear_arith)
            requires
                -(b as int) <= y1 <= b,
                qi * (b as int) <= a,
                qi >= 0,
        ;
    }
    (res, y1, x1 - q * y1)
}

/// The Euclidean remainder of a signed value of magnitude at most `m`.
fn reduce_signed(x: i128, m: u64) -> (r: u64)
    requires
        m > 0,
        -(m as int) <= x <= m,
    ensures
        r == (x as int) % (m as int),
        r < m,
{
    let shifted: i128 = if x < 0 { x + m as i128 } else { x };
    proof {
        if x < 0 {
            crate::arith::lemma_mod_add_multiple(x as int, 1, m as int);
        }
        if shifted < m {
            lemma_mod_small(shifted as int, m as int);
        } else {
            lemma_mod_sub_once(shifted as int, m as int);
        }
    }
    if shifted >= m as i128 {
        (shifted - m as i128) as u64
    } else {
        shifted as u64
    }
}

/// General modular inverse through the extended Euclidean algorithm.
///
/// Returns `None` when `m <= 1` or when `a` and `m` are not coprime.
pub fn general_mod_inv(a: u64, m: u64) -> (r: Option<u64>)
    ensures
        r is Some <==> m > 1 && gcd((a % m) as nat, m as nat) == 1,
        r matches Some(v) ==> v < m && v == ext_gcd((a % m) as nat, m as nat).1 % (m as int)
            && (a * v) % (m as int) == 1,
{
    if m <= 1 {
        return None;
    }
    let ghost a0 = a as int;
    let a = a % m;
    let (g, x, _) = extend_gcd(a, m);
    if g != 1 {
        None
    } else {
        proof {
            lemma_ext_gcd(a as nat, m as nat);
        }
        let v = reduce_signed(x, m);
        proof {
            let y = ext_gcd(a as nat, m as nat).2;
            let mm = m as int;
            // a*x + m*y == 1, so a*x == 1 (mod m)
            assert((a * x) % mm == 1) by {
                crate::arith::lemma_mod_add_multiple(a * x, y, mm);
                assert(a * x + y * mm == 1) by (nonlinear_arith)
                    requires
                        a * x + m * y == 1,
                        mm == m,
                ;
                lemma_mod_small(1, mm);
            }
            lemma_mod_mul_both(a as int, x as int, mm);
            lemma_mod_mul_both(a0, v as int, mm);
            assert(v as int == (x as int) % mm);
            lemma_mod_mul_both(a as int, v as int, mm);
        }
        Some(v)
    }
}

/// Inverse of an odd `a` modulo `2^log2_m` by Newton/Hensel lifting.
///
/// The result is the unique residue in `[0, 2^log2_m)` whose product with `a`
/// is `1` modulo `2^log2_m`.
pub fn newton_lifting(a: u64, log2_m: u64) -> (r: u64)
    requires
        1 <= log2_m <= 64,
        a % 2 == 1,
    ensures
        r < pow2(log2_m as nat),
        (a * r) % (pow2(log2_m as nat) as int) == 1,
{
    let mut x = 1u64;
    let mut bits = 1u64;
    let ghost mut k: nat = 0;
    proof {
        lemma2_to64();
        assert((a * 1) % 2 == 1);
    }
    while bits < log2_m
        invariant
            1 <= log2_m <= 64,
            k <= 6,
            bits == pow2(k),
            1 <= bits <= 64,
            (a * x) % (pow2(bits as nat) as int) == 1,
        decreases 64 - bits,
    {
        proof {
            lemma2_to64();
            assert(k <= 5) by {
                if k >= 6 {
                    if k > 6 {
                        vstd::arithmetic::power2::lemma_pow2_strictly_increases(6, k);
                    }
                }
            }
            assert(bits <= 32) by {
                if k < 5 {
                    vstd::arithmetic::power2::lemma_pow2_strictly_increases(k, 5);
                }
            }
            let b = bits as nat;
            let p = pow2(b) as int;
            let c = pow2((64 - 2 * b) as nat) as int;
            lemma_pow2_adds(b, b);
            lemma_pow2_adds(2 * b, (64 - 2 * b) as nat);
            vstd::arithmetic::power2::lemma_pow2_pos((64 - 2 * b) as nat);
            assert(pow2(b + b) == pow2(b) * pow2(b));
            assert((2 * b + (64 - 2 * b)) as nat == 64);
            assert(pow2(64) == 0x1_0000_0000_0000_0000) by {
                lemma2_to64_rest();
            }
            assert(p * p * c == 0x1_0000_0000_0000_0000);
            assert(p > 1) by {
                vstd::arithmetic::power2::lemma_pow2_strictly_increases(0, b);
            }
            lemma_hensel_step(a as int, x as int, p, c);
            vstd::arithmetic::power2::lemma_pow2_unfold(k + 1);
        }
        x = x.wrapping_mul(2u64.wrapping_sub(a.wrapping_mul(x)));
        proof {
            assert(bits << 1 == 2 * bits) by (bit_vector)
                requires
                    bits <= 32,
            ;
        }
        bits = bits << 1;
        proof {
            k = k + 1;
        }
    }
    proof {
        // reduce the precision from `bits` down to `log2_m`
        let b = bits as nat;
        let l = log2_m as nat;
        lemma_pow2_adds(l, (b - l) as nat);
        vstd::arithmetic::power2::lemma_pow2_pos(l);
        vstd::arithmetic::power2::lemma_pow2_pos((b - l) as nat);
        assert((l + (b - l)) as nat == b);
        lemma_mod_of_multiple(a * x, pow2(l) as int, pow2((b - l) as nat) as int);
        vstd::arithmetic::power2::lemma_pow2_strictly_increases(0, l);
        lemma2_to64();
        lemma_mod_small(1, pow2(l) as int);
    }
    if log2_m == 64 {
        proof {
            assert(pow2(64) == 0x1_0000_0000_0000_0000) by {
                lemma2_to64_rest();
            }
        }
        x
    } else {
        proof {
            lemma_u64_pow2_no_overflow(log2_m as nat);
            lemma_u64_shl_is_mul(1, log2_m);
        }
        let mask = (1u64 << log2_m) - 1;
        proof {
            lemma_u64_low_bits_mask_is_mod(x, log2_m as nat);
            assert(mask == low_bits_mask(log2_m as nat) as u64);
            lemma_mod_mul_both(a as int, x as int, pow2(log2_m as nat) as int);
            lemma_mod_range(x as int, pow2(log2_m as nat) as int);
        }
        x & mask
    }
}

proof fn lemma_pow2_42()
    ensures
        pow2(42) == 0x400_0000_0000,
{
    lemma2_to64_rest();
}

/// Precomputed Barrett reduction context for a fixed modulus below `2^42`.
///
/// With `k` the bit length of the modulus, `magic == floor(2^(2k) / modulus)`;
/// reducing `x < modulus^2` costs two multiplications, a shift and at most one
/// subtraction.
pub struct BarrettReducer {
    /// The modulus.
    pub modulus: u64,
    /// `floor(2^(2 * shift) / modulus)`.
    pub magic: u128,
    /// The bit length of the modulus.
    pub shift: u32,
}

impl View for BarrettReducer {
    type V = u64;

    /// The modulus this reducer works with.
    open spec fn view(&self) -> u64 {
        self.modulus
    }
}

impl BarrettReducer {
    /// The reducer's constants match its modulus.
    pub closed spec fn wf(&self) -> bool {
        &&& 0 < self.modulus < 0x400_0000_0000
        &&& self.shift == bit_len(self.modulus as nat)
        &&& self.magic as int == (pow2(2 * self.shift as nat) as int) / (self.modulus as int)
    }

    /// Create a reducer for `modulus`, which must be positive and below `2^42`
    /// (so that `x * magic` fits in 128 bits).
    pub fn new(modulus: u64) -> (r: Self)
        requires
            0 < modulus < 0x400_0000_0000,
        ensures
            r.wf(),
            r@ == modulus,
            r.modulus == modulus,
    {
        proof {
            lemma_leading_zeros_bit_len(modulus);
            lemma_pow2_42();
            crate::arith::lemma_bit_len_below(modulus as nat, 42);
        }
        let k = 64 - modulus.leading_zeros();
        proof {
            lemma_u128_one_shl((2 * k) as u32);
        }
        let magic = (1u128 << (2 * k)) / modulus as u128;
        Self { modulus, magic, shift: k }
    }

    /// Reduce `x` modulo `self.modulus`; `x` must be below `modulus^2`.
    pub fn reduce(&self, x: u128) -> (r: u64)
        requires
            self.wf(),
            x < self@ * self@,
        ensures
            r == (x as int) % (self@ as int),
    {
        let ghost m = self.modulus as int;
        let ghost k = self.shift as nat;
        let ghost big = pow2(2 * k) as int;
        let ghost magic = self.magic as int;
        proof {
            lemma_bit_len_bounds(self.modulus as nat);
            lemma_pow2_42();
            crate::arith::lemma_bit_len_below(self.modulus as nat, 42);
            vstd::arithmetic::power2::lemma_pow2_adds(k, k);
            vstd::arithmetic::power2::lemma_pow2_adds((k - 1) as nat, 2);
            vstd::arithmetic::power2::lemma_pow2_adds(k + 1, 2 * k);
            vstd::arithmetic::power2::lemma_pow2_pos((k - 1) as nat);
            vstd::arithmetic::power2::lemma2_to64();
            let pk = pow2(k) as int;
            let pk1 = pow2((k - 1) as nat) as int;
            assert(pk == 2 * pk1) by {
                vstd::arithmetic::power2::lemma_pow2_unfold(k);
            }
            assert(big == pk * pk);
            // magic <= 2^(k+1)
            vstd::arithmetic::div_mod::lemma_fundamental_div_mod(big, m);
            vstd::arithmetic::div_mod::lemma_mod_bound(big, m);
            assert(magic * m <= big);
            assert(magic <= 4 * pk1) by (nonlinear_arith)
                requires
                    magic * m <= big,
                    big == pk * pk,
                    pk == 2 * pk1,
                    pk1 <= m,
                    pk1 > 0,
                    magic >= 0,
            ;
            assert(m * m < pk * pk) by (nonlinear_arith)
                requires
                    m < pk,
                    m > 0,
            ;
            assert(x * magic <= x * (4 * pk1)) by (nonlinear_arith)
                requires
                    magic <= 4 * pk1,
                    x >= 0,
            ;
            assert(x * (4 * pk1) < (pk * pk) * (4 * pk1)) by (nonlinear_arith)
                requires
                    x < pk * pk,
                    pk1 > 0,
            ;
            // (4 * pk1) * (pk * pk) == 2^(3k+1) <= 2^127
            assert(pow2(2) == 4);
            assert(((k - 1) as nat + 2) as nat == k + 1);
            assert(pow2(k + 1) == 4 * pk1);
            assert(pow2(k + 1 + 2 * k) == (4 * pk1) * (pk * pk));
            assert((pk * pk) * (4 * pk1) == (4 * pk1) * (pk * pk)) by (nonlinear_arith);
            if k + 1 + 2 * k < 127 {
                vstd::arithmetic::power2::lemma_pow2_strictly_increases(k + 1 + 2 * k, 127);
            }
            assert(pow2(127) < 0x1_0000_0000_0000_0000_0000_0000_0000_0000) by {
                vstd::arithmetic::power2::lemma_pow2_strictly_increases(127, 128);
                crate::arith::lemma_pow2_128();
            }
            assert(x * magic < 0x1_0000_0000_0000_0000_0000_0000_0000_0000);
            lemma_u128_shr((x * self.magic) as u128, (self.shift * 2) as u32);
            assert(2 * k == (self.shift * 2) as nat);
        }
        let q = (x * self.magic) >> (self.shift * 2);
        proof {
            let qi = q as int;
            vstd::arithmetic::div_mod::lemma_fundamental_div_mod(x * magic, big);
            vstd::arithmetic::div_mod::lemma_mod_bound(x * magic, big);
            assert(qi == (x * magic) / big);
            assert(x * magic == big * qi + (x * magic) % big);
            assert(qi * big <= x * magic) by (nonlinear_arith)
                requires
                    x * magic == big * qi + (x * magic) % big,
                    (x * magic) % big >= 0,
            ;
            assert(x * magic < (qi + 1) * big) by (nonlinear_arith)
                requires
                    x * magic == big * qi + (x * magic) % big,
                    (x * magic) % big < big,
            ;
            assert(big == m * (big / m) + big % m);
            assert(big < (magic + 1) * m) by (nonlinear_arith)
                requires
                    big == m * magic + big % m,
                    big % m < m,
            ;
            assert(x < big) by {
                assert(m * m < big) by (nonlinear_arith)
                    requires
                        m < pow2(k) as int,
                        big == (pow2(k) as int) * (pow2(k) as int),
                        m > 0,
                ;
            }
            vstd::arithmetic::div_mod::lemma_fundamental_div_mod(big, m);
            vstd::arithmetic::div_mod::lemma_mod_bound(big, m);
            assert(qi * m <= x) by (nonlinear_arith)
                requires
                    qi * big <= x * magic,
                    magic * m <= big,
                    big > 0,
                    m > 0,
                    qi >= 0,
                    x >= 0,
            ;
            assert(x < (qi + 2) * m) by (nonlinear_arith)
                requires
                    x * magic < (qi + 1) * big,
                    big < (magic + 1) * m,
                    x < big,
                    m > 0,
                    x >= 0,
                    qi >= 0,
            ;
        }
        proof {
            assert((q as int) * m <= x < (q as int + 2) * m);
            assert(x - (q as int) * m < 2 * m) by (nonlinear_arith)
                requires
                    x < (q as int + 2) * m,
            ;
        }
        let rem = (x - q * self.modulus as u128) as u64;
        proof {
            crate::arith::lemma_mod_add_multiple(rem as int, q as int, m);
            if rem >= self.modulus {
                lemma_mod_sub_once(rem as int, m);
            } else {
                lemma_mod_small(rem as int, m);
            }
        }
        if rem >= self.modulus {
            rem - self.modulus
        } else {
            rem
        }
    }

    /// Compute `(a * b) mod modulus`; the product must be below `modulus^2`.
    pub fn mul_reduce(&self, a: u64, b: u64) -> (r: u64)
        requires
            self.wf(),
            a * b < self@ * self@,
        ensures
            r == (a * b) % (self@ as int),
    {
        proof {
            assert(a * b <= (u64::MAX as int) * (u64::MAX as int)) by (nonlinear_arith);
        }
        let product = a as u128 * b as u128;
        self.reduce(product)
    }
}

/// The Montgomery radix `R = 2^64`.
pub open spec fn mont_radix() -> int {
    0x1_0000_0000_0000_0000
}

/// A value in Montgomery form: `x * R mod m` with `R = 2^64`.
#[derive(Clone, Copy, Debug, PartialEq, Eq, Structural)]
pub struct MontgomeryInt {
    /// Value stored as `x * R mod m`.
    pub val: u64,
}

/// Precomputed constants for Montgomery arithmetic modulo a fixed odd modulus.
#[derive(Clone, Debug)]
pub struct MontgomeryParams {
    /// The odd modulus `m`.
    pub modulus: u64,
    /// `R^2 mod m`, used to enter Montgomery form.
    pub r2: u64,
    /// `-m^{-1} mod 2^64`.
    pub m_prime: u64,
}

impl MontgomeryParams {
    /// The constants agree with the modulus.
    pub open spec fn wf(&self) -> bool {
        &&& self.modulus % 2 == 1
        &&& self.r2 == (mont_radix() * mont_radix()) % (self.modulus as int)
        &&& (self.modulus * self.m_prime) % mont_radix() == mont_radix() - 1
    }

    /// Compute the Montgomery constants for an odd `modulus`.
    pub fn new(modulus: u64) -> (r: Self)
        requires
            modulus % 2 == 1,
        ensures
            r.wf(),
            r.modulus == modulus,
    {
        let r_mod = mod_pow(2, 64, modulus);
        let r2 = mod_mul(r_mod, r_mod, modulus);
        let inv = newton_lifting(modulus, 64);
        let m_prime = 0u64.wrapping_sub(inv);
        proof {
            let m = modulus as int;
            let rr = mont_radix();
            assert(pow2(64) == rr) by {
                lemma2_to64_rest();
            }
            assert(pow(2, 64) == rr) by {
                vstd::arithmetic::power2::lemma_pow2(64);
            }
            lemma_mod_mul_both(rr, rr, m);
            // m * m' == -1 (mod R)
            assert((modulus * inv) % rr == 1);
            assert(inv != 0) by {
                if inv == 0 {
                    assert(modulus * inv == 0) by (nonlinear_arith)
                        requires
                            inv == 0,
                    ;
                }
            }
            assert(m_prime == rr - inv);
            assert(modulus * m_prime == m * rr - modulus * inv) by (nonlinear_arith)
                requires
                    m_prime == rr - inv,
                    m == modulus,
            ;
            crate::arith::lemma_mod_add_multiple(-(modulus * inv), m, rr);
            lemma_mod_sub_both(0, modulus * inv, rr);
            lemma_mod_small(0, rr);
            crate::arith::lemma_mod_add_multiple(-1, 1, rr);
            lemma_mod_small(rr - 1, rr);
        }
        Self { modulus, r2, m_prime }
    }

    /// Montgomery reduction: for `t < m * R`, the unique residue `u < m`
    /// with `u * R == t (mod m)`.
    pub fn redc(&self, t: u128) -> (r: u64)
        requires
            self.wf(),
            t < self.modulus * mont_radix(),
        ensures
            r < self.modulus,
            (r * mont_radix()) % (self.modulus as int) == (t as int) % (self.modulus as int),
    {
        let ghost m = self.modulus as int;
        let ghost rr = mont_radix();
        let ghost ti = t as int;
        let t_lo = t as u64;
        let tmp = t_lo.wrapping_mul(self.m_prime);
        proof {
            assert(tmp * m < rr * m) by (nonlinear_arith)
                requires
                    tmp < rr,
                    m > 0,
            ;
            assert(rr * m <= 0x1_0000_0000_0000_0000_0000_0000_0000_0000) by (nonlinear_arith)
                requires
                    m < rr,
                    rr == 0x1_0000_0000_0000_0000,
            ;
        }
        let tm = (tmp as u128) * (self.modulus as u128);
        let tm_lo = tm as u64;
        let ghost tmi = tm as int;
        let carry: bool = t_lo.checked_add(tm_lo).is_none();
        proof {
            let tl = t_lo as int;
            let tml = tm_lo as int;
            assert(t_lo == ti % rr) by {
                assert(t as u64 == t % 0x1_0000_0000_0000_0000) by (bit_vector);
            }
            assert(tm_lo == tmi % rr) by {
                assert(tm as u64 == tm % 0x1_0000_0000_0000_0000) by (bit_vector);
            }
            assert(t >> 64 == ti / rr) by {
                assert(t >> 64 == t / 0x1_0000_0000_0000_0000) by (bit_vector);
            }
            assert(tm >> 64 == tmi / rr) by {
                assert(tm >> 64 == tm / 0x1_0000_0000_0000_0000) by (bit_vector);
            }
            // tmp == t_lo * m' (mod R), hence t_lo + tm_lo == 0 (mod R)
            assert((tl + tml) % rr == 0) by {
                let mp = self.m_prime as int;
                lemma_mod_add_both(tl, tmi, rr);
                lemma_mod_mul_both(tmp as int, m, rr);
                lemma_mod_mul_both(tl * mp, m, rr);
                assert((tl * mp) * m == tl * (m * mp)) by (nonlinear_arith);
                lemma_mod_mul_both(tl, m * mp, rr);
                assert(tl * (rr - 1) == tl * rr - tl) by (nonlinear_arith);
                crate::arith::lemma_mod_add_multiple(-tl, tl, rr);
                lemma_mod_add_both(tl, tl * (m * mp), rr);
                lemma_mod_add_both(tl, tl * (rr - 1), rr);
                assert(tl + tl * (rr - 1) == tl * rr) by (nonlinear_arith);
                crate::arith::lemma_mod_add_multiple(0, tl, rr);
                lemma_mod_small(0, rr);
            }
            lemma_mod_range(t as int, rr);
            lemma_mod_range(tm as int, rr);
            if tl + tml == 0 {
            } else {
                assert(tl + tml == rr) by {
                    if tl + tml < rr {
                        lemma_mod_small(tl + tml, rr);
                    } else {
                        lemma_mod_sub_once(tl + tml, rr);
                    }
                }
            }
            assert(carry == (tl + tml >= rr));
            vstd::arithmetic::div_mod::lemma_fundamental_div_mod(t as int, rr);
            vstd::arithmetic::div_mod::lemma_fundamental_div_mod(tm as int, rr);
            assert(ti / rr <= m) by (nonlinear_arith)
                requires
                    ti < m * rr,
                    ti == rr * (ti / rr) + ti % rr,
                    ti % rr >= 0,
                    rr > 0,
            ;
        }
        let u = (t >> 64) + (tm >> 64) + (carry as u128);
        proof {
            let ui = u as int;
            let c: int = if carry { 1 } else { 0 };
            assert(ui * rr == ti + tmi) by (nonlinear_arith)
                requires
                    ui == ti / rr + tmi / rr + c,
                    ti == rr * (ti / rr) + ti % rr,
                    tmi == rr * (tmi / rr) + tmi % rr,
                    ti % rr + tmi % rr == c * rr,
            ;
            assert(ui < 2 * m) by (nonlinear_arith)
                requires
                    ui * rr == ti + tmi,
                    ti < m * rr,
                    tmi < rr * m,
                    rr > 0,
            ;
            // tm is a multiple of m
            crate::arith::lemma_mod_add_multiple(t as int, tmp as int, m);
            assert(tmi == tmp * m);
            if ui >= m {
                lemma_mod_sub_once(ui, m);
                crate::arith::lemma_mod_mul_both(ui, rr, m);
                crate::arith::lemma_mod_mul_both(ui - m, rr, m);
            }
        }
        if u >= self.modulus as u128 {
            (u - self.modulus as u128) as u64
        } else {
            u as u64
        }
    }

    /// Enter Montgomery form: returns `a * R mod m`.
    pub fn to_montgomery(&self, a: u64) -> (r: MontgomeryInt)
        requires
            self.wf(),
        ensures
            r.val == (a * mont_radix()) % (self.modulus as int),
    {
        proof {
            assert(a * self.r2 < self.modulus * mont_radix()) by (nonlinear_arith)
                requires
                    a < mont_radix(),
                    self.r2 < self.modulus,
            ;
            assert(a * self.r2 <= (u64::MAX as int) * (u64::MAX as int)) by (nonlinear_arith);
        }
        let v = self.redc((a as u128) * (self.r2 as u128));
        proof {
            let m = self.modulus as int;
            let rr = mont_radix();
            // v * R == a * R^2 == (a * R) * R  (mod m)
            lemma_mod_mul_both(a as int, rr * rr, m);
            assert(a * (rr * rr) == (a * rr) * rr) by (nonlinear_arith);
            lemma_pow2_128();
            crate::arith::lemma_odd_cancel_pow2(v as int, a * rr, 64, m);
            lemma_mod_small(v as int, m);
        }
        MontgomeryInt { val: v }
    }

    /// Leave Montgomery form: returns the residue `u < m` with `u * R == a.val (mod m)`.
    pub fn from_montgomery(&self, a: MontgomeryInt) -> (r: u64)
        requires
            self.wf(),
        ensures
            r < self.modulus,
            (r * mont_radix()) % (self.modulus as int) == (a.val as int) % (self.modulus as int),
    {
        proof {
            assert(a.val < self.modulus * mont_radix()) by (nonlinear_arith)
                requires
                    a.val < mont_radix(),
                    self.modulus >= 1,
            ;
        }
        self.redc(a.val as u128)
    }

    /// Montgomery product `REDC(a.val * b.val)` of two reduced Montgomery values.
    pub fn mont_mul(&self, a: MontgomeryInt, b: MontgomeryInt) -> (r: MontgomeryInt)
        requires
            self.wf(),
            a.val < self.modulus,
            b.val < self.modulus,
        ensures
            r.val < self.modulus,
            (r.val * mont_radix()) % (self.modulus as int) == (a.val * b.val) % (
            self.modulus as int),
    {
        proof {
            assert(a.val * b.val < self.modulus * mont_radix()) by (nonlinear_arith)
                requires
                    a.val < self.modulus,
                    b.val < self.modulus,
                    self.modulus < mont_radix(),
            ;
            assert(a.val * b.val <= (u64::MAX as int) * (u64::MAX as int)) by (nonlinear_arith);
        }
        MontgomeryInt { val: self.redc(a.val as u128 * b.val as u128) }
    }
}

/// The distinct prime factors of `n`, in increasing order (empty for `n <= 1`).
pub fn prime_factors(n: u64) -> (r: Vec<u64>)
    ensures
        forall|i: int| 0 <= i < r.len() ==> is_prime(#[trigger] r[i] as nat) && n % r[i] == 0,
        forall|i: int, j: int| 0 <= i < j < r.len() ==> r[i] < r[j],
        forall|p: u64| is_prime(p as nat) && n > 0 && #[trigger] (n % p) == 0 ==> r@.contains(p),
        n <= 1 ==> r.len() == 0,
{
    let ghost n0 = n;
    let mut factors: Vec<u64> = Vec::new();
    let mut d = 2u64;
    let mut n = n;
    while d <= n / d
        invariant
            2 <= d,
            n0 == 0 ==> n == 0,
            n0 > 0 ==> n >= 1 && n0 % n == 0,
            n <= n0,
            forall|e: nat| 2 <= e < d ==> #[trigger] ((n as nat) % e) != 0 || n == 0,
            forall|i: int| 0 <= i < factors.len() ==> is_prime(#[trigger] factors[i] as nat) && n0
                % factors[i] == 0 && factors[i] < d && n % factors[i] != 0,
            forall|i: int, j: int| 0 <= i < j < factors.len() ==> factors[i] < factors[j],
            forall|p: u64|
                is_prime(p as nat) && n0 > 0 && #[trigger] (n0 % p) == 0 ==> factors@.contains(p)
                    || n % p == 0,
            n0 <= 1 ==> factors.len() == 0,
        decreases n0 - d,
    {
        proof {
            assert(d * (n / d) <= n) by {
                vstd::arithmetic::div_mod::lemma_fundamental_div_mod(n as int, d as int);
                vstd::arithmetic::div_mod::lemma_mod_bound(n as int, d as int);
            }
            assert(d * d <= n) by (nonlinear_arith)
                requires
                    d <= n / d,
                    d * (n / d) <= n,
            ;
            assert(d < n) by (nonlinear_arith)
                requires
                    d * d <= n,
                    d >= 2,
            ;
        }
        if n % d == 0 {
            proof {
                // d is prime: any proper divisor of d would divide n
                assert forall|e: nat| 1 < e < d implies #[trigger] ((d as nat) % e) != 0 by {
                    if (d as nat) % e == 0 {
                        lemma_divides_trans(e, d as nat, n as nat);
                    }
                }
                lemma_divides_trans(d as nat, n as nat, n0 as nat);
            }
            let ghost old_factors = factors@;
            factors.push(d);
            let ghost before = n;
            while n % d == 0
                invariant
                    2 <= d,
                    n >= 1,
                    n0 % n == 0,
                    n <= before,
                    before % n == 0,
                    n0 > 0,
                    is_prime(d as nat),
                    forall|e: nat| 2 <= e < d ==> #[trigger] ((n as nat) % e) != 0,
                    forall|p: u64|
                        is_prime(p as nat) && p != d && #[trigger] (before % p) == 0 ==> n % p == 0,
                decreases n,
            {
                let ghost old_n = n;
                proof {
                    vstd::arithmetic::div_mod::lemma_fundamental_div_mod(n as int, d as int);
                }
                n = n / d;
                proof {
                    assert(old_n == d * n);
                    assert(n >= 1) by {
                        if n == 0 {
                            assert(d * n == 0) by (nonlinear_arith)
                                requires
                                    n == 0,
                            ;
                        }
                    }
                    assert(n < old_n) by (nonlinear_arith)
                        requires
                            old_n == d * n,
                            d >= 2,
                            n >= 1,
                    ;
                    assert(old_n % n == 0) by {
                        vstd::arithmetic::div_mod::lemma_mod_multiples_basic(d as int, n as int);
                        assert(d * n == n * d) by (nonlinear_arith);
                    }
                    lemma_divides_trans(n as nat, old_n as nat, before as nat);
                    lemma_divides_trans(n as nat, old_n as nat, n0 as nat);
                    assert forall|e: nat| 2 <= e < d implies #[trigger] ((n as nat) % e) != 0 by {
                        if (n as nat) % e == 0 {
                            lemma_divides_trans(e, n as nat, old_n as nat);
                        }
                    }
                    assert forall|p: u64|
                        is_prime(p as nat) && p != d && #[trigger] (before % p) == 0 implies n % p
                        == 0 by {
                        assert(old_n % p == 0);
                        assert((d * n) % (p as int) == 0);
                        lemma_euclid(p as nat, d as int, n as int);
                        if (d as int) % (p as int) == 0 {
                            // p divides the prime d, so p == d
                            lemma_mod_is_zero_le(d as nat, p as nat);
                            if p < d {
                                assert((d as nat) % (p as nat) != 0);
                            }
                        }
                    }
                }
            }
            proof {
                assert forall|i: int| 0 <= i < factors.len() implies is_prime(
                    #[trigger] factors[i] as nat,
                ) && n0 % factors[i] == 0 && factors[i] < d + 1 && n % factors[i] != 0 by {
                    if i < factors.len() - 1 {
                        let f = factors[i];
                        if n % f == 0 {
                            lemma_divides_trans(f as nat, n as nat, before as nat);
                        }
                    }
                }
                assert forall|p: u64|
                    is_prime(p as nat) && n0 > 0 && #[trigger] (n0 % p) == 0 implies factors@.contains(
                    p,
                ) || n % p == 0 by {
                    if p == d {
                        assert(factors[factors.len() - 1] == d);
                    } else if !factors@.contains(p) {
                        if old_factors.contains(p) {
                            let k = choose|k: int| 0 <= k < old_factors.len() && old_factors[k] == p;
                            assert(factors[k] == p);
                        }
                        assert(before % p == 0);
                    }
                }
            }
        }
        d += 1;
    }
    proof {
        vstd::arithmetic::div_mod::lemma_fundamental_div_mod(n as int, d as int);
        vstd::arithmetic::div_mod::lemma_mod_bound(n as int, d as int);
        assert(d * d > n) by (nonlinear_arith)
            requires
                d > n / d,
                n == d * (n / d) + n % d,
                n % d < d,
                d >= 2,
        ;
    }
    if n > 1 {
        proof {
            lemma_prime_if_no_small_divisor(n as nat, d as nat);
            // n is at least d, hence above every earlier factor
            assert(n >= d) by {
                if n < d {
                    vstd::arithmetic::div_mod::lemma_mod_self_0(n as int);
                    assert(n % n != 0);
                }
            }
        }
        let ghost pre = factors@;
        factors.push(n);
        proof {
            assert forall|p: u64| is_prime(p as nat) && n0 > 0 && #[trigger] (n0 % p) == 0 implies factors@.contains(
                p,
            ) by {
                if !pre.contains(p) {
                    assert(n % p == 0);
                    lemma_mod_is_zero_le(n as nat, p as nat);
                    if p < n {
                        assert((n as nat) % (p as nat) != 0);
                    }
                    assert(factors[factors.len() - 1] == n);
                } else {
                    let k = choose|k: int| 0 <= k < pre.len() && pre[k] == p;
                    assert(factors[k] == p);
                }
            }
        }
    } else {
        proof {
            assert forall|p: u64| is_prime(p as nat) && n0 > 0 && #[trigger] (n0 % p) == 0 implies factors@.contains(
                p,
            ) by {
                if n % p == 0 {
                    assert(n == 1);
                    lemma_mod_small(1, p as int);
                }
            }
        }
    }
    factors
}

/// `g` passes the primitive-root test modulo `p`: `g^((p-1)/q) mod p != 1`
/// for every prime factor `q` of `p - 1`.
pub open spec fn passes_root_test(g: u64, p: u64) -> bool {
    forall|q: u64|
        is_prime(q as nat) && #[trigger] ((p - 1) as u64 % q) == 0 ==> pow(
            g as int,
            ((p - 1) as u64 / q) as nat,
        ) % (p as int) != 1
}

/// The smallest `g >= 2` below `p` passing the primitive-root test.
///
/// For a prime `p` the test characterises generators of `Z_p^*`, and for
/// every prime `p >= 3` some candidate passes, so the search succeeds.
/// Fails with `NotPrime(p)` when `p < 2` or when no candidate passes.
pub fn find_primitive_root(p: u64) -> (r: Result<u64, MathError>)
    ensures
        r matches Ok(g) ==> 2 <= g < p && passes_root_test(g, p) && forall|h: u64|
            2 <= h < g ==> !#[trigger] passes_root_test(h, p),
        r matches Err(e) ==> e == MathError::NotPrime(p) && (p < 2 || forall|h: u64|
            2 <= h < p ==> !#[trigger] passes_root_test(h, p)),
        is_prime(p as nat) && p >= 3 ==> r is Ok,
{
    if p < 2 {
        return Err(MathError::NotPrime(p));
    }
    let mut g = 2u64;
    while g < p
        invariant
            2 <= g,
            p >= 2,
            forall|h: u64| 2 <= h < g ==> !#[trigger] passes_root_test(h, p),
        decreases p - g,
    {
        let pm1 = p - 1;
        let factors = prime_factors(pm1);
        let mut passed = true;
        let mut i = 0usize;
        while i < factors.len() && passed
            invariant
                i <= factors.len(),
                pm1 == p - 1,
                p >= 2,
                forall|k: int| 0 <= k < factors.len() ==> is_prime(#[trigger] factors[k] as nat)
                    && pm1 % factors[k] == 0,
                passed ==> forall|k: int|
                    0 <= k < i ==> pow(g as int, (pm1 / #[trigger] factors[k]) as nat) % (p as int)
                        != 1,
                !passed ==> !passes_root_test(g, p),
            decreases factors.len() - i + (if passed { 1int } else { 0int }),
        {
            let q = factors[i];
            proof {
                lemma_fundamental_div_mod(pm1 as int, q as int);
                if pm1 / q == 0 {
                    assert(q * (pm1 / q) == 0) by (nonlinear_arith)
                        requires
                            pm1 / q == 0,
                    ;
                }
            }
            let v = mod_pow(g, pm1 / q, p);
            if v == 1 {
                proof {
                    assert(factors[i as int] == q);
                    assert(((p - 1) as u64 % q) == 0);
                    assert(pm1 / q > 0);
                    assert(pow(g as int, ((p - 1) as u64 / q) as nat) % (p as int) == 1);
                    assert(!passes_root_test(g, p));
                }
                passed = false;
            } else {
                i += 1;
            }
        }
        if passed {
            proof {
                assert forall|q: u64|
                    is_prime(q as nat) && #[trigger] ((p - 1) as u64 % q) == 0 implies pow(
                    g as int,
                    ((p - 1) as u64 / q) as nat,
                ) % (p as int) != 1 by {
                    assert(pm1 % q == 0);
                    assert(factors@.contains(q));
                    let k = choose|k: int| 0 <= k < factors.len() && factors[k] == q;
                    assert(pow(g as int, (pm1 / factors[k]) as nat) % (p as int) != 1);
                }
            }
            return Ok(g);
        }
        g += 1;
    }
    proof {
        if is_prime(p as nat) && p >= 3 {
            crate::generators::lemma_primitive_root_exists(p);
            let h = choose|h: u64| 2 <= h < p && #[trigger] passes_root_test(h, p);
            assert(!passes_root_test(h, p));
        }
    }
    Err(MathError::NotPrime(p))
}


/// `R = 2^64` as a power of two.
proof fn lemma_mont_radix_pow2()
    ensures
        mont_radix() == vstd::arithmetic::power2::pow2(64),
{
    vstd::arithmetic::power2::lemma2_to64_rest();
}

/// Leaving Montgomery form undoes entering it: if `v` is the Montgomery form
/// `a * R mod m` of a residue `a < m` (what `to_montgomery` returns) and `u < m`
/// satisfies `u * R == v (mod m)` (what `from_montgomery` returns for `v`), then `u == a`.
pub proof fn lemma_montgomery_roundtrip(m: u64, a: u64, v: u64, u: u64)
    requires
        m % 2 == 1,
        a < m,
        u < m,
        v == (a * mont_radix()) % (m as int),
        (u * mont_radix()) % (m as int) == (v as int) % (m as int),
    ensures
        u == a,
{
    lemma_mont_radix_pow2();
    crate::arith::lemma_mod_idem(a * mont_radix(), m as int);
    crate::arith::lemma_odd_cancel_pow2(u as int, a as int, 64, m as int);
    lemma_mod_small(u as int, m as int);
    lemma_mod_small(a as int, m as int);
}

/// Montgomery multiplication agrees with modular multiplication: with `va`, `vb`
/// the Montgomery forms of `a` and `b`, `w` a reduced value satisfying
/// `w * R == va * vb (mod m)` (what `mont_mul` returns) and `u < m` satisfying
/// `u * R == w (mod m)` (what `from_montgomery` returns), `u == a * b mod m`.
pub proof fn lemma_montgomery_mul(m: u64, a: u64, b: u64, va: u64, vb: u64, w: u64, u: u64)
    requires
        m % 2 == 1,
        va == (a * mont_radix()) % (m as int),
        vb == (b * mont_radix()) % (m as int),
        (w * mont_radix()) % (m as int) == (va * vb) % (m as int),
        u < m,
        (u * mont_radix()) % (m as int) == (w as int) % (m as int),
    ensures
        u == (a * b) % (m as int),
{
    let mm = m as int;
    let r = mont_radix();
    lemma_mont_radix_pow2();
    // w * R == a * b * R * R, so w == a * b * R (mod m)
    lemma_mod_mul_both(a * r, b * r, mm);
    assert((a * r) * (b * r) == (a * b * r) * r) by (nonlinear_arith);
    crate::arith::lemma_odd_cancel_pow2(w as int, a * b * r, 64, mm);
    // u * R == w == (a * b) * R, so u == a * b (mod m)
    crate::arith::lemma_odd_cancel_pow2(u as int, a * b, 64, mm);
    lemma_mod_small(u as int, mm);
}

/// A value passing the primitive-root test for a prime `p`, as
/// `find_primitive_root` returns, has order exactly `p - 1`: `g^(p-1) == 1`
/// (Fermat) and `g^k != 1 (mod p)` for every `0 < k < p - 1`.
pub proof fn lemma_primitive_root_orders(g: u64, p: u64)
    requires
        is_prime(p as nat),
        2 <= g < p,
        passes_root_test(g, p),
    ensures
        pow(g as int, (p - 1) as nat) % (p as int) == 1,
        forall|k: nat| 0 < k < p - 1 ==> #[trigger] pow(g as int, k) % (p as int) != 1,
{
    lemma_mod_small(g as int, p as int);
    crate::fermat::lemma_fermat_little(g as nat, p as nat);
    assert forall|k: nat| 0 < k < p - 1 implies #[trigger] pow(g as int, k) % (p as int) != 1 by {
        crate::generators::lemma_test_gives_full_order(g, p, k);
    }
}
} // verus!
