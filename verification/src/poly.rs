//! Single-modulus polynomials over `Z_q[x] / (x^n + 1)`, stored in coefficient
//! form or in the (bit-reversed) negacyclic NTT domain.

use crate::arith::is_pow2;
use crate::error::MathError;
use crate::modular::mod_mul;
use crate::ntt::NttPlan;
use crate::ntt_spec::{reduced, scale_by};
use vstd::prelude::*;

verus! {

/// Domain of a polynomial's representation.
#[derive(Clone, Copy, Debug, PartialEq, Eq, Structural)]
pub enum Domain {
    /// Coefficient form: `a[i]` is the coefficient of `x^i`.
    Coefficient,
    /// Negacyclic NTT form, in the bit-reversed order of the plan's forward transform.
    Ntt,
}

/// A polynomial in `Z_q[x]/(x^n+1)`, stored as `n` values modulo `q`.
#[derive(Clone, Debug)]
pub struct Poly {
    /// Coefficients (or NTT values), each in `[0, q)`.
    pub coeffs: Vec<u64>,
    /// The modulus `q`.
    pub modulus: u64,
    /// Current domain of `coeffs`.
    pub domain: Domain,
}

/// Coefficientwise sum modulo `q`.
pub open spec fn add_spec(a: Seq<u64>, b: Seq<u64>, q: int) -> Seq<u64> {
    Seq::new(a.len(), |i: int| ((a[i] + b[i]) % q) as u64)
}

/// Coefficientwise difference modulo `q`.
pub open spec fn sub_spec(a: Seq<u64>, b: Seq<u64>, q: int) -> Seq<u64> {
    Seq::new(a.len(), |i: int| ((a[i] - b[i]) % q) as u64)
}

/// Coefficientwise negation of residues: `0` stays `0`, `c` becomes `q - c`.
pub open spec fn negate_spec(a: Seq<u64>, q: int) -> Seq<u64> {
    Seq::new(a.len(), |i: int| if a[i] == 0 { 0u64 } else { (q - a[i]) as u64 })
}

impl Poly {
    /// The coefficients are residues modulo a positive modulus.
    pub open spec fn wf(&self) -> bool {
        self.modulus > 0 && reduced(self.coeffs@, self.modulus as int)
    }

    /// The polynomial's values in the NTT domain of `plan`.
    pub open spec fn ntt_values(&self, plan: &NttPlan) -> Seq<u64> {
        if self.domain == Domain::Ntt {
            self.coeffs@
        } else {
            plan.forward_spec(self.coeffs@)
        }
    }

    /// A copy with the same coefficients, modulus and domain.
    pub fn duplicate(&self) -> (r: Self)
        ensures
            r.coeffs@ == self.coeffs@,
            r.modulus == self.modulus,
            r.domain == self.domain,
    {
        let coeffs = self.coeffs.clone();
        proof {
            assert(coeffs@ =~= self.coeffs@);
        }
        Poly { coeffs, modulus: self.modulus, domain: self.domain }
    }

    /// The zero polynomial of the given degree and modulus, in coefficient form.
    pub fn zero(degree: usize, modulus: u64) -> (r: Self)
        requires
            is_pow2(degree as nat),
        ensures
            r.coeffs@ == Seq::new(degree as nat, |i: int| 0u64),
            r.modulus == modulus,
            r.domain == Domain::Coefficient,
    {
        let mut coeffs: Vec<u64> = Vec::with_capacity(degree);
        let mut i = 0usize;
        while i < degree
            invariant
                i <= degree,
                coeffs@ == Seq::new(i as nat, |k: int| 0u64),
            decreases degree - i,
        {
            coeffs.push(0);
            i += 1;
            proof {
                assert(coeffs@ =~= Seq::new(i as nat, |k: int| 0u64));
            }
        }
        Poly { coeffs, modulus, domain: Domain::Coefficient }
    }

    /// Number of coefficients.
    pub fn len(&self) -> (r: usize)
        ensures
            r == self.coeffs@.len(),
    {
        self.coeffs.len()
    }

    /// Whether the polynomial has no coefficients.
    pub fn is_empty(&self) -> (r: bool)
        ensures
            r == (self.coeffs@.len() == 0),
    {
        self.coeffs.len() == 0
    }

    /// Coefficientwise `(a + b) mod q`.
    pub fn add(&self, other: &Self) -> (r: Self)
        requires
            self.coeffs@.len() == other.coeffs@.len(),
            self.modulus == other.modulus,
            self.domain == other.domain,
            self.modulus > 0,
        ensures
            r.coeffs@ == add_spec(self.coeffs@, other.coeffs@, self.modulus as int),
            r.modulus == self.modulus,
            r.domain == self.domain,
    {
        let q = self.modulus;
        let n = self.coeffs.len();
        let mut out: Vec<u64> = Vec::with_capacity(n);
        let mut i = 0usize;
        while i < n
            invariant
                q == self.modulus,
                q > 0,
                n == self.coeffs@.len() == other.coeffs@.len(),
                i <= n,
                out@ == add_spec(self.coeffs@, other.coeffs@, q as int).subrange(0, i as int),
            decreases n - i,
        {
            let s = (self.coeffs[i] as u128 + other.coeffs[i] as u128) % (q as u128);
            proof {
                crate::arith::lemma_mod_range(self.coeffs[i as int] + other.coeffs[i as int], q as int);
            }
            out.push(s as u64);
            i += 1;
            proof {
                assert(out@ =~= add_spec(self.coeffs@, other.coeffs@, q as int).subrange(0, i as int));
            }
        }
        proof {
            assert(out@ =~= add_spec(self.coeffs@, other.coeffs@, q as int));
        }
        Poly { coeffs: out, modulus: q, domain: self.domain }
    }

    /// Coefficientwise `(a - b) mod q`.
    pub fn sub(&self, other: &Self) -> (r: Self)
        requires
            self.coeffs@.len() == other.coeffs@.len(),
            self.modulus == other.modulus,
            self.domain == other.domain,
            self.modulus > 0,
        ensures
            r.coeffs@ == sub_spec(self.coeffs@, other.coeffs@, self.modulus as int),
            r.modulus == self.modulus,
            r.domain == self.domain,
    {
        let q = self.modulus;
        let n = self.coeffs.len();
        let mut out: Vec<u64> = Vec::with_capacity(n);
        let mut i = 0usize;
        while i < n
            invariant
                q == self.modulus,
                q > 0,
                n == self.coeffs@.len() == other.coeffs@.len(),
                i <= n,
                out@ == sub_spec(self.coeffs@, other.coeffs@, q as int).subrange(0, i as int),
            decreases n - i,
        {
            let a = self.coeffs[i];
            let b = other.coeffs[i] % q;
            let s = (a as u128 + (q - b) as u128) % (q as u128);
            proof {
                let ai = a as int;
                let bi = other.coeffs[i as int] as int;
                crate::arith::lemma_mod_range(bi, q as int);
                crate::arith::lemma_mod_range(ai + (q - b), q as int);
                crate::arith::lemma_mod_sub_both(ai, bi, q as int);
                crate::arith::lemma_mod_add_multiple(ai - bi % (q as int), 1, q as int);
            }
            out.push(s as u64);
            i += 1;
            proof {
                assert(out@ =~= sub_spec(self.coeffs@, other.coeffs@, q as int).subrange(0, i as int));
            }
        }
        proof {
            assert(out@ =~= sub_spec(self.coeffs@, other.coeffs@, q as int));
        }
        Poly { coeffs: out, modulus: q, domain: self.domain }
    }

    /// Coefficientwise negation: `0` stays `0`, `c` becomes `q - c`, which is
    /// `-c mod q` on residues.
    pub fn negate(&self) -> (r: Self)
        requires
            forall|i: int| 0 <= i < self.coeffs@.len() ==> #[trigger] self.coeffs@[i] <= self.modulus,
        ensures
            r.coeffs@ == negate_spec(self.coeffs@, self.modulus as int),
            r.modulus == self.modulus,
            r.domain == self.domain,
    {
        let q = self.modulus;
        let n = self.coeffs.len();
        let mut out: Vec<u64> = Vec::with_capacity(n);
        let mut i = 0usize;
        while i < n
            invariant
                q == self.modulus,
                n == self.coeffs@.len(),
                forall|k: int| 0 <= k < n ==> #[trigger] self.coeffs@[k] <= q,
                i <= n,
                out@ == negate_spec(self.coeffs@, q as int).subrange(0, i as int),
            decreases n - i,
        {
            let c = self.coeffs[i];
            let v = if c == 0 {
                0
            } else {
                q - c
            };
            out.push(v);
            i += 1;
            proof {
                assert(out@ =~= negate_spec(self.coeffs@, q as int).subrange(0, i as int));
            }
        }
        proof {
            assert(out@ =~= negate_spec(self.coeffs@, q as int));
        }
        Poly { coeffs: out, modulus: q, domain: self.domain }
    }

    /// Convert to the NTT domain of `plan` in place (nothing to do when already there).
    ///
    /// Fails with `NttUnsupported` when the plan's modulus or degree differ from
    /// the polynomial's.
    pub fn ntt_forward(&mut self, plan: &NttPlan) -> (r: Result<(), MathError>)
        requires
            plan.wf(),
        ensures
            old(self).domain == Domain::Ntt ==> r is Ok && *final(self) == *old(self),
            final(self).coeffs@.len() == old(self).coeffs@.len(),
            old(self).domain == Domain::Coefficient ==> {
                &&& (r is Ok <==> (plan.modulus == old(self).modulus && plan.degree
                    == old(self).coeffs@.len()))
                &&& r is Ok ==> final(self).coeffs@ == plan.forward_spec(old(self).coeffs@)
                    && final(self).domain == Domain::Ntt && final(self).modulus == old(
                    self,
                ).modulus && reduced(final(self).coeffs@, final(self).modulus as int)
                &&& r is Err ==> *final(self) == *old(self) && r == Err::<(), MathError>(
                    (MathError::NttUnsupported {
                        modulus: old(self).modulus,
                        degree: old(self).coeffs@.len() as usize,
                    }),
                )
            },
    {
        if self.domain == Domain::Ntt {
            return Ok(());
        }
        if plan.modulus != self.modulus || plan.degree != self.coeffs.len() {
            return Err(MathError::NttUnsupported { modulus: self.modulus, degree: self.coeffs.len() });
        }
        plan.forward_to_bitrev(self.coeffs.as_mut_slice());
        self.domain = Domain::Ntt;
        Ok(())
    }

    /// Convert from the NTT domain of `plan` back to coefficients in place
    /// (nothing to do when already in coefficient form).
    ///
    /// Fails with `NttUnsupported` when the plan's modulus or degree differ from
    /// the polynomial's.
    pub fn ntt_inverse(&mut self, plan: &NttPlan) -> (r: Result<(), MathError>)
        requires
            plan.wf(),
            old(self).domain == Domain::Ntt && plan.modulus == old(self).modulus && plan.degree
                == old(self).coeffs@.len() ==> reduced(old(self).coeffs@, old(self).modulus as int),
        ensures
            old(self).domain == Domain::Coefficient ==> r is Ok && *final(self) == *old(self),
            final(self).coeffs@.len() == old(self).coeffs@.len(),
            old(self).domain == Domain::Ntt ==> {
                &&& (r is Ok <==> (plan.modulus == old(self).modulus && plan.degree
                    == old(self).coeffs@.len()))
                &&& r is Ok ==> final(self).coeffs@ == plan.inverse_spec(old(self).coeffs@)
                    && final(self).domain == Domain::Coefficient && final(self).modulus == old(
                    self,
                ).modulus && reduced(final(self).coeffs@, final(self).modulus as int)
                &&& r is Err ==> *final(self) == *old(self) && r == Err::<(), MathError>(
                    (MathError::NttUnsupported {
                        modulus: old(self).modulus,
                        degree: old(self).coeffs@.len() as usize,
                    }),
                )
            },
    {
        if self.domain == Domain::Coefficient {
            return Ok(());
        }
        if plan.modulus != self.modulus || plan.degree != self.coeffs.len() {
            return Err(MathError::NttUnsupported { modulus: self.modulus, degree: self.coeffs.len() });
        }
        plan.inverse_from_bitrev(self.coeffs.as_mut_slice());
        self.domain = Domain::Coefficient;
        Ok(())
    }
}


impl Poly {
    /// Values of the product computed by [`Poly::mul`]: the pointwise product when
    /// both operands are in the NTT domain, otherwise the inverse transform of the
    /// pointwise product of both operands' NTT values.
    pub open spec fn product_values(&self, other: &Poly, plan: &NttPlan) -> Seq<u64> {
        let q = self.modulus as int;
        if self.domain == Domain::Ntt && other.domain == Domain::Ntt {
            scale_by(self.coeffs@, other.coeffs@, q)
        } else {
            plan.inverse_spec(scale_by(self.ntt_values(plan), other.ntt_values(plan), q))
        }
    }

    /// Domain of the product computed by [`Poly::mul`].
    pub open spec fn product_domain(&self, other: &Poly) -> Domain {
        if self.domain == Domain::Ntt && other.domain == Domain::Ntt {
            Domain::Ntt
        } else {
            Domain::Coefficient
        }
    }

    /// Product in `Z_q[x]/(x^n+1)` through the NTT of `plan`.
    ///
    /// When both operands are in the NTT domain the result is their pointwise
    /// product, left in the NTT domain. Otherwise both are brought to the NTT
    /// domain, multiplied pointwise and the product is converted back to
    /// coefficient form. Fails with `NttUnsupported` when the plan's modulus or
    /// degree differ from the operands'.
    pub fn mul(&self, other: &Self, plan: &NttPlan) -> (r: Result<Self, MathError>)
        requires
            plan.wf(),
            self.wf(),
            other.wf(),
            self.modulus == other.modulus,
            self.coeffs@.len() == other.coeffs@.len(),
        ensures
            r is Ok <==> (plan.modulus == self.modulus && plan.degree == self.coeffs@.len()),
            r is Err ==> r == Err::<Poly, MathError>(
                (MathError::NttUnsupported {
                    modulus: self.modulus,
                    degree: self.coeffs@.len() as usize,
                }),
            ),
            r matches Ok(c) ==> c.modulus == self.modulus && reduced(c.coeffs@, c.modulus as int)
                && c.coeffs@ == self.product_values(other, plan) && c.domain
                == self.product_domain(other),
    {
        if plan.modulus != self.modulus || plan.degree != self.coeffs.len() {
            return Err(MathError::NttUnsupported { modulus: self.modulus, degree: self.coeffs.len() });
        }
        let both_ntt = self.domain == Domain::Ntt && other.domain == Domain::Ntt;
        let mut a = self.duplicate();
        let mut b = other.duplicate();
        let _ = a.ntt_forward(plan);
        let _ = b.ntt_forward(plan);
        plan.pointwise_mul(a.coeffs.as_mut_slice(), b.coeffs.as_slice());
        if !both_ntt {
            let _ = a.ntt_inverse(plan);
        }
        Ok(a)
    }
}

/// Negation of residues is negation modulo `q`: `negate_spec(a)[i] == -a[i] mod q`.
pub proof fn lemma_negate_is_neg_mod(a: Seq<u64>, q: int)
    requires
        0 < q <= 0x1_0000_0000_0000_0000,
        reduced(a, q),
    ensures
        forall|i: int| 0 <= i < a.len() ==> #[trigger] negate_spec(a, q)[i] == (-(a[i] as int)) % q,
{
    assert forall|i: int| 0 <= i < a.len() implies #[trigger] negate_spec(a, q)[i] == (-(a[i] as int))
        % q by {
        if a[i] == 0 {
            crate::arith::lemma_mod_small(0, q);
        } else {
            crate::arith::lemma_mod_add_multiple(-(a[i] as int), 1, q);
            crate::arith::lemma_mod_small(q - a[i], q);
            assert((q - a[i]) as u64 == q - a[i]);
        }
    }
}

/// Adding a polynomial to its negation gives zero.
pub proof fn lemma_add_negate_is_zero(a: Seq<u64>, q: int)
    requires
        0 < q <= 0x1_0000_0000_0000_0000,
        reduced(a, q),
    ensures
        add_spec(a, negate_spec(a, q), q) == Seq::new(a.len(), |i: int| 0u64),
{
    lemma_negate_is_neg_mod(a, q);
    assert forall|i: int| 0 <= i < a.len() implies #[trigger] add_spec(a, negate_spec(a, q), q)[i]
        == 0u64 by {
        if a[i] == 0 {
            crate::arith::lemma_mod_small(0, q);
        } else {
            vstd::arithmetic::div_mod::lemma_mod_self_0(q);
        }
    }
    assert(add_spec(a, negate_spec(a, q), q) =~= Seq::new(a.len(), |i: int| 0u64));
}

/// Subtraction undoes addition on residues: `(a + b) - b == a`.
pub proof fn lemma_add_sub_cancel(a: Seq<u64>, b: Seq<u64>, q: int)
    requires
        0 < q <= 0x1_0000_0000_0000_0000,
        a.len() == b.len(),
        reduced(a, q),
    ensures
        sub_spec(add_spec(a, b, q), b, q) == a,
{
    assert forall|i: int| 0 <= i < a.len() implies #[trigger] sub_spec(add_spec(a, b, q), b, q)[i]
        == a[i] by {
        crate::ntt_spec::lemma_cast_mod(a[i] + b[i], q);
        crate::arith::lemma_mod_sub_both(a[i] + b[i], b[i] as int, q);
        crate::arith::lemma_mod_small(a[i] as int, q);
    }
    assert(sub_spec(add_spec(a, b, q), b, q) =~= a);
}

/// `Poly::mul` multiplies in `Z_q[x]/(x^n + 1)`: for two polynomials in
/// coefficient form, the product's coefficients are the negacyclic product of
/// theirs (`x^n == -1`), on every plan `NttPlan::new` returns for a prime modulus.
pub proof fn lemma_poly_mul_is_ring_product(a: &Poly, b: &Poly, plan: &NttPlan)
    requires
        plan.wf(),
        plan.invertible(),
        exists|psi: int|
            crate::ntt_build::is_negacyclic_root(psi, plan.degree as nat, plan.modulus as int)
                && plan.built_from(psi),
        a.wf(),
        b.wf(),
        a.domain == Domain::Coefficient,
        b.domain == Domain::Coefficient,
        a.modulus == plan.modulus,
        b.modulus == plan.modulus,
        a.coeffs@.len() == plan.degree,
        b.coeffs@.len() == plan.degree,
    ensures
        a.product_values(b, plan) == crate::negacyclic::negacyclic_mul(
            a.coeffs@,
            b.coeffs@,
            plan.modulus as int,
        ),
        a.product_domain(b) == Domain::Coefficient,
{
    crate::negacyclic::lemma_ntt_multiplies(plan, a.coeffs@, b.coeffs@);
}
} // verus!
