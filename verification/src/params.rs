//! CKKS parameter sets, ciphertexts and plaintexts.
//!
//! Scales are floating-point values; they are held here as the bit patterns
//! of their `f64` encodings, which is all the arithmetic core does with them.

use crate::ntt::NttPlan;
use crate::negacyclic::negacyclic_mul;
use crate::ntt_build::{is_negacyclic_root, ntt_friendly, ntt_plans_for_moduli};
use crate::poly::{Domain, Poly};
use crate::rns::{RnsBasis, RnsPoly};
use crate::arith::is_pow2;
use std::sync::Arc;
use vstd::arithmetic::power2::pow2;
use vstd::prelude::*;

verus! {

/// The IEEE-754 double-precision encoding of `2^k`, `k <= 1023`: sign zero,
/// biased exponent `1023 + k`, mantissa zero.
pub open spec fn pow2_f64_bits_spec(k: nat) -> nat {
    (1023 + k) * pow2(52)
}

/// The bit pattern of the `f64` value `2^k`.
pub fn pow2_f64_bits(k: u32) -> (r: u64)
    requires
        k <= 1023,
    ensures
        r == pow2_f64_bits_spec(k as nat),
{
    let e = 1023u64 + k as u64;
    proof {
        vstd::arithmetic::power2::lemma2_to64();
        vstd::arithmetic::power2::lemma2_to64_rest();
        assert(e * pow2(52) <= u64::MAX) by (nonlinear_arith)
            requires
                e <= 2046,
                pow2(52) == 0x10_0000_0000_0000,
        ;
        vstd::bits::lemma_u64_shl_is_mul(e, 52);
    }
    e << 52
}

/// The `f64` with bit pattern `x` is a NaN: exponent field all ones and a
/// nonzero mantissa.
pub open spec fn f64_bits_nan(x: u64) -> bool {
    (x & 0x7FFF_FFFF_FFFF_FFFFu64) > 0x7FF0_0000_0000_0000u64
}

/// The `f64` with bit pattern `x` is `+0.0` or `-0.0`.
pub open spec fn f64_bits_zero(x: u64) -> bool {
    (x & 0x7FFF_FFFF_FFFF_FFFFu64) == 0
}

/// The `f64` values with bit patterns `a` and `b` are equal under IEEE-754
/// comparison (as `f64`'s `==`): neither is a NaN, and either the patterns
/// agree or both are zeros of either sign.
pub open spec fn f64_bits_eq(a: u64, b: u64) -> bool {
    &&& !f64_bits_nan(a)
    &&& !f64_bits_nan(b)
    &&& (a == b || (f64_bits_zero(a) && f64_bits_zero(b)))
}

/// Whether two scales, given as `f64` bit patterns, are equal as `f64` values.
pub fn same_scale(a: u64, b: u64) -> (r: bool)
    ensures
        r == f64_bits_eq(a, b),
{
    let mask = 0x7FFF_FFFF_FFFF_FFFFu64;
    let inf = 0x7FF0_0000_0000_0000u64;
    (a & mask) <= inf && (b & mask) <= inf && (a == b || ((a & mask) == 0 && (b & mask) == 0))
}

/// CKKS scheme parameters.
#[derive(Clone, Debug)]
pub struct CkksParams {
    /// Ring dimension `n` (a power of two).
    pub poly_degree: usize,
    /// The chain of prime moduli; `q_chain[0]` is the special prime, the
    /// others are dropped one by one when rescaling.
    pub q_chain: Vec<u64>,
    /// Default scale `Δ`, as the bits of its `f64` encoding.
    pub scale_bits: u64,
    /// Number of plaintext slots, `n / 2`.
    pub num_slots: usize,
    /// Maximum multiplicative depth: one less than the number of moduli.
    pub max_depth: usize,
}

impl CkksParams {
    /// Parameters from a degree, a modulus chain and a scale.
    pub fn new(poly_degree: usize, q_chain: Vec<u64>, scale_bits: u64) -> (r: Self)
        requires
            is_pow2(poly_degree as nat),
            q_chain@.len() > 0,
        ensures
            r.poly_degree == poly_degree,
            r.q_chain@ == q_chain@,
            r.scale_bits == scale_bits,
            r.num_slots == poly_degree / 2,
            r.max_depth == q_chain@.len() - 1,
    {
        let max_depth = q_chain.len() - 1;
        CkksParams { poly_degree, num_slots: poly_degree / 2, q_chain, scale_bits, max_depth }
    }

    /// The moduli `q_chain[0..=level]`.
    fn chain_prefix(&self, level: usize) -> (r: Vec<u64>)
        requires
            level < self.q_chain@.len(),
        ensures
            r@ == self.q_chain@.subrange(0, level + 1),
    {
        let mut out: Vec<u64> = Vec::new();
        let mut i: usize = 0;
        let len = self.q_chain.len();
        while i <= level
            invariant
                i <= level + 1,
                level < self.q_chain@.len(),
                len == self.q_chain@.len(),
                out@ == self.q_chain@.subrange(0, i as int),
            decreases level + 1 - i,
        {
            out.push(self.q_chain[i]);
            i = i + 1;
            proof {
                assert(out@ =~= self.q_chain@.subrange(0, i as int));
            }
        }
        out
    }

    /// The RNS basis at `level`: the moduli `q_chain[0..=level]`.
    pub fn rns_basis_at_level(&self, level: usize) -> (r: RnsBasis)
        requires
            level < self.q_chain@.len(),
        ensures
            r.moduli@ == self.q_chain@.subrange(0, level + 1),
    {
        RnsBasis::new(self.chain_prefix(level))
    }

    /// One NTT plan per modulus of `q_chain[0..=level]`, in order.
    ///
    /// The parameters must hold NTT-friendly moduli for their degree. Each plan
    /// is the negacyclic plan of `NttPlan::new`, built from a primitive
    /// `2n`-th root of unity, so that multiplying with it is multiplication in
    /// `Z_q[x]/(x^n + 1)`: for any two polynomials in coefficient form over the
    /// plan's modulus, the product's coefficients are their negacyclic product
    /// (`x^n == -1`).
    pub fn ntt_plans_at_level(&self, level: usize) -> (r: Vec<NttPlan>)
        requires
            level < self.q_chain@.len(),
            forall|i: int|
                0 <= i <= level ==> ntt_friendly(
                    #[trigger] self.q_chain@[i] as nat,
                    self.poly_degree as nat,
                ),
        ensures
            r@.len() == level + 1,
            forall|i: int|
                0 <= i <= level ==> {
                    let p = #[trigger] r@[i];
                    &&& p.wf()
                    &&& p.modulus == self.q_chain@[i]
                    &&& p.degree == self.poly_degree
                    &&& p.invertible()
                    &&& exists|psi: int|
                        is_negacyclic_root(psi, self.poly_degree as nat, self.q_chain@[i] as int)
                            && p.built_from(psi)
                },
            forall|i: int, a: Poly, b: Poly|
                0 <= i <= level && a.wf() && b.wf() && a.domain == Domain::Coefficient
                    && b.domain == Domain::Coefficient && a.modulus == self.q_chain@[i]
                    && b.modulus == self.q_chain@[i] && a.coeffs@.len() == self.poly_degree
                    && b.coeffs@.len() == self.poly_degree ==> #[trigger] a.product_values(
                    &b,
                    &r@[i],
                ) == negacyclic_mul(a.coeffs@, b.coeffs@, self.q_chain@[i] as int),
    {
        let moduli = self.chain_prefix(level);
        let plans = match ntt_plans_for_moduli(moduli.as_slice(), self.poly_degree) {
            Ok(plans) => plans,
            Err(_) => {
                proof {
                    assert forall|i: int| 0 <= i < moduli@.len() implies ntt_friendly(
                        #[trigger] moduli@[i] as nat,
                        self.poly_degree as nat,
                    ) by {
                        assert(moduli@[i] == self.q_chain@[i]);
                    }
                }
                return Vec::new();
            },
        };
        proof {
            assert forall|i: int, a: Poly, b: Poly|
                0 <= i <= level && a.wf() && b.wf() && a.domain == Domain::Coefficient
                    && b.domain == Domain::Coefficient && a.modulus == self.q_chain@[i]
                    && b.modulus == self.q_chain@[i] && a.coeffs@.len() == self.poly_degree
                    && b.coeffs@.len() == self.poly_degree implies #[trigger] a.product_values(
                &b,
                &plans@[i],
            ) == negacyclic_mul(a.coeffs@, b.coeffs@, self.q_chain@[i] as int) by {
                assert(moduli@[i] == self.q_chain@[i]);
                crate::poly::lemma_poly_mul_is_ring_product(&a, &b, &plans@[i]);
            }
        }
        plans
    }
}

/// Toy parameters for unit tests: `n = 16`, depth 3, scale `2^20`. Insecure.
///
/// The modulus `786433 = 3 * 2^18 + 1` is prime and NTT-friendly for degree 16.
pub fn toy_params() -> (r: CkksParams)
    ensures
        r.poly_degree == 16,
        r.q_chain@ == seq![786_433u64, 786_433u64, 786_433u64, 786_433u64],
        r.scale_bits == pow2_f64_bits_spec(20),
        r.num_slots == 8,
        r.max_depth == 3,
{
    let q_chain = vec![786_433u64, 786_433, 786_433, 786_433];
    proof {
        vstd::arithmetic::power2::lemma2_to64();
        crate::arith::lemma_is_pow2_pow2(4);
    }
    CkksParams::new(16, q_chain, pow2_f64_bits(20))
}

/// The toy parameters behind a shared pointer.
pub fn toy_params_arc() -> (r: Arc<CkksParams>)
    ensures
        r.poly_degree == 16,
        r.q_chain@ == seq![786_433u64, 786_433u64, 786_433u64, 786_433u64],
        r.scale_bits == pow2_f64_bits_spec(20),
        r.num_slots == 8,
        r.max_depth == 3,
{
    Arc::new(toy_params())
}

/// Parameters of the OpenFHE "STD128" shape: degree 16384, eleven moduli of
/// about 44 bits, scale `2^44`.
///
/// The moduli are placeholders of the right size, not checked NTT primes.
pub fn secure_128bit_depth10() -> (r: CkksParams)
    ensures
        r.poly_degree == 16384,
        r.q_chain@ == seq![
            0x0003_FFFF_FFFF_0001u64,
            0x0003_FFFF_FFFE_0001u64,
            0x0003_FFFF_FFFD_0001u64,
            0x0003_FFFF_FFFC_0001u64,
            0x0003_FFFF_FFFB_0001u64,
            0x0003_FFFF_FFFA_0001u64,
            0x0003_FFFF_FFF9_0001u64,
            0x0003_FFFF_FFF8_0001u64,
            0x0003_FFFF_FFF7_0001u64,
            0x0003_FFFF_FFF6_0001u64,
            0x0003_FFFF_FFF5_0001u64,
        ],
        r.scale_bits == pow2_f64_bits_spec(44),
        r.num_slots == 8192,
        r.max_depth == 10,
{
    let q_chain = vec![
        0x0003_FFFF_FFFF_0001u64,
        0x0003_FFFF_FFFE_0001,
        0x0003_FFFF_FFFD_0001,
        0x0003_FFFF_FFFC_0001,
        0x0003_FFFF_FFFB_0001,
        0x0003_FFFF_FFFA_0001,
        0x0003_FFFF_FFF9_0001,
        0x0003_FFFF_FFF8_0001,
        0x0003_FFFF_FFF7_0001,
        0x0003_FFFF_FFF6_0001,
        0x0003_FFFF_FFF5_0001,
    ];
    proof {
        vstd::arithmetic::power2::lemma2_to64();
        crate::arith::lemma_is_pow2_pow2(14);
    }
    CkksParams::new(16384, q_chain, pow2_f64_bits(44))
}

/// A degree-1 CKKS ciphertext `(c0, c1)`.
#[derive(Clone, Debug)]
pub struct Ciphertext {
    /// First component.
    pub c0: RnsPoly,
    /// Second component.
    pub c1: RnsPoly,
    /// Current level (the number of RNS limbs minus one).
    pub level: usize,
    /// Current scale, as the bits of its `f64` encoding.
    pub scale_bits: u64,
    /// The shared parameters, when attached.
    pub params: Option<Arc<CkksParams>>,
}

impl Ciphertext {
    /// A ciphertext at the given level and scale, without parameters attached.
    pub fn new(c0: RnsPoly, c1: RnsPoly, level: usize, scale_bits: u64) -> (r: Self)
        ensures
            r.c0 == c0,
            r.c1 == c1,
            r.level == level,
            r.scale_bits == scale_bits,
            r.params is None,
    {
        Ciphertext { c0, c1, level, scale_bits, params: None }
    }

    /// Number of RNS limbs at the current level, `level + 1`.
    pub fn num_limbs(&self) -> (r: usize)
        requires
            self.level < usize::MAX,
        ensures
            r == self.level + 1,
    {
        self.level + 1
    }
}

/// A CKKS plaintext: an RNS polynomial at a level and scale.
#[derive(Clone, Debug)]
pub struct Plaintext {
    /// The encoded polynomial.
    pub poly: RnsPoly,
    /// Current level (the number of RNS limbs minus one).
    pub level: usize,
    /// Current scale, as the bits of its `f64` encoding.
    pub scale_bits: u64,
}

impl Plaintext {
    /// A plaintext at the given level and scale.
    pub fn new(poly: RnsPoly, level: usize, scale_bits: u64) -> (r: Self)
        ensures
            r.poly == poly,
            r.level == level,
            r.scale_bits == scale_bits,
    {
        Plaintext { poly, level, scale_bits }
    }
}

} // verus!
