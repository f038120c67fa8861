//! Conversions between signed integer coefficients and residues, used when
//! encoding slot values into plaintext polynomials and decoding them back.

use vstd::prelude::*;

verus! {

/// The residue of a signed value modulo `modulus`: `value mod m` for
/// `value >= 0`, and `m - (|value| mod m)` otherwise, that is the
/// representative `m + value` of a negative value, in `[0, m)`.
pub fn signed_to_rns(value: i64, modulus: u64) -> (r: u64)
    requires
        modulus > 0,
        value > i64::MIN,
    ensures
        r == (value as int) % (modulus as int),
        r < modulus,
{
    proof {
        let m = modulus as int;
        let v = value as int;
        crate::arith::lemma_mod_range(-v, m);
        crate::arith::lemma_mod_range(v, m);
        if value < 0 {
            let a = (-v) % m;
            crate::arith::lemma_mod_sub_both(0, -v, m);
            crate::arith::lemma_mod_small(0, m);
            assert((0 - a) % m == (0 - (-v)) % m);
            assert(0 - (-v) == v);
            crate::arith::lemma_mod_add_multiple(-a, 1, m);
            assert(-a + 1 * m == m - a);
            if a > 0 {
                crate::arith::lemma_mod_small(m - a, m);
            } else {
                assert(0 - a == 0);
            }
        }
    }
    if value >= 0 {
        (value as u64) % modulus
    } else {
        let a = (-value) as u64 % modulus;
        if a == 0 {
            0
        } else {
            modulus - a
        }
    }
}

/// The centered representative of a residue: `value` itself up to `m / 2`,
/// `value - m` above.
pub fn centered(value: u64, modulus: u64) -> (r: i64)
    requires
        modulus <= i64::MAX,
        value <= i64::MAX,
    ensures
        r == if value <= modulus / 2 {
            value as int
        } else {
            value - modulus
        },
{
    if value <= modulus / 2 {
        value as i64
    } else {
        value as i64 - modulus as i64
    }
}

/// Encoding a small signed value as a residue and decoding it with `centered`
/// gives the value back: for `-m/2 < v <= m/2`.
pub proof fn lemma_centered_undoes_signed(v: int, m: int, r: int)
    requires
        0 < m <= i64::MAX,
        -m < 2 * v <= m,
        r == v % m,
    ensures
        (if r <= m / 2 {
            r
        } else {
            r - m
        }) == v,
{
    if v >= 0 {
        crate::arith::lemma_mod_small(v, m);
    } else {
        crate::arith::lemma_mod_add_multiple(v, 1, m);
        crate::arith::lemma_mod_small(v + m, m);
    }
}

} // verus!
