//! Residue-number-system polynomials: a polynomial modulo `Q = q_0 * ... * q_{L-1}`
//! held as one single-modulus polynomial (limb) per `q_i`.

use crate::arith::is_pow2;
use crate::error::MathError;
use crate::modular::{general_mod_inv, mod_add, mod_mul, mod_sub};
use crate::number_theory::gcd;
use crate::ntt::NttPlan;
use crate::ntt_spec::scale_const;
use crate::poly::{add_spec, sub_spec, Domain, Poly};
use vstd::prelude::*;

verus! {

/// An RNS basis: the moduli `q_0, ..., q_{L-1}`.
#[derive(Clone, Debug)]
pub struct RnsBasis {
    /// The moduli, meant to be distinct primes.
    pub moduli: Vec<u64>,
}

impl RnsBasis {
    /// A basis with the given moduli.
    pub fn new(moduli: Vec<u64>) -> (r: Self)
        ensures
            r.moduli@ == moduli@,
    {
        RnsBasis { moduli }
    }

    /// Number of moduli.
    pub fn len(&self) -> (r: usize)
        ensures
            r == self.moduli@.len(),
    {
        self.moduli.len()
    }

    /// Whether the basis has no moduli.
    pub fn is_empty(&self) -> (r: bool)
        ensures
            r == (self.moduli@.len() == 0),
    {
        self.moduli.len() == 0
    }

    /// A copy of the basis.
    pub fn duplicate(&self) -> (r: Self)
        ensures
            r.moduli@ == self.moduli@,
    {
        let moduli = self.moduli.clone();
        proof {
            assert(moduli@ =~= self.moduli@);
        }
        RnsBasis { moduli }
    }
}

/// A polynomial in `Z_Q[x]/(x^n+1)` in RNS form: `limbs[i]` is the polynomial
/// modulo `basis.moduli[i]`.
#[derive(Clone, Debug)]
pub struct RnsPoly {
    /// One polynomial per modulus of the basis.
    pub limbs: Vec<Poly>,
    /// The shared basis.
    pub basis: RnsBasis,
}

impl RnsPoly {
    /// One limb per modulus, limb `i` reduced modulo a positive `moduli[i]`,
    /// all limbs of one length and in one domain.
    pub open spec fn shape_ok(&self) -> bool {
        &&& self.limbs@.len() == self.basis.moduli@.len()
        &&& forall|i: int|
            0 <= i < self.limbs@.len() ==> {
                let l = #[trigger] self.limbs@[i];
                &&& l.modulus == self.basis.moduli@[i]
                &&& l.modulus > 0
                &&& l.coeffs@.len() == self.limbs@[0].coeffs@.len()
                &&& l.domain == self.limbs@[0].domain
            }
    }

    /// Shape as above, with every limb holding residues.
    pub open spec fn wf(&self) -> bool {
        &&& self.shape_ok()
        &&& forall|i: int| 0 <= i < self.limbs@.len() ==> (#[trigger] self.limbs@[i]).wf()
    }

    /// `self` and `other` have the same basis, and their limbs agree in length and domain.
    pub open spec fn compatible(&self, other: &Self) -> bool {
        &&& self.shape_ok()
        &&& other.shape_ok()
        &&& self.basis.moduli@ == other.basis.moduli@
        &&& self.limbs@.len() > 0 ==> (self.limbs@[0].coeffs@.len() == other.limbs@[0].coeffs@.len()
            && self.limbs@[0].domain == other.limbs@[0].domain)
    }

    /// The zero polynomial of the given degree in every limb, in coefficient form.
    pub fn zero(degree: usize, basis: RnsBasis) -> (r: Self)
        requires
            is_pow2(degree as nat),
        ensures
            r.basis.moduli@ == basis.moduli@,
            r.limbs@.len() == basis.moduli@.len(),
            forall|i: int|
                0 <= i < r.limbs@.len() ==> {
                    let l = #[trigger] r.limbs@[i];
                    &&& l.coeffs@ == Seq::new(degree as nat, |k: int| 0u64)
                    &&& l.modulus == basis.moduli@[i]
                    &&& l.domain == Domain::Coefficient
                },
    {
        let mut limbs: Vec<Poly> = Vec::new();
        let mut i = 0usize;
        while i < basis.moduli.len()
            invariant
                is_pow2(degree as nat),
                i <= basis.moduli@.len(),
                limbs@.len() == i,
                forall|k: int|
                    0 <= k < i ==> {
                        let l = #[trigger] limbs@[k];
                        &&& l.coeffs@ == Seq::new(degree as nat, |m: int| 0u64)
                        &&& l.modulus == basis.moduli@[k]
                        &&& l.domain == Domain::Coefficient
                    },
            decreases basis.moduli@.len() - i,
        {
            limbs.push(Poly::zero(degree, basis.moduli[i]));
            i += 1;
        }
        RnsPoly { limbs, basis }
    }

    /// Number of coefficients per limb (zero when there are no limbs).
    pub fn degree(&self) -> (r: usize)
        ensures
            r == if self.limbs@.len() == 0 {
                0
            } else {
                self.limbs@[0].coeffs@.len()
            },
    {
        if self.limbs.len() == 0 {
            0
        } else {
            self.limbs[0].len()
        }
    }

    /// Number of limbs.
    pub fn num_limbs(&self) -> (r: usize)
        ensures
            r == self.limbs@.len(),
    {
        self.limbs.len()
    }

    /// The RNS form of a polynomial with `u64` coefficients: limb `i` holds
    /// `coeffs[j] mod moduli[i]`.
    pub fn from_coeffs(coeffs: &[u64], basis: RnsBasis) -> (r: Self)
        requires
            forall|i: int| 0 <= i < basis.moduli@.len() ==> #[trigger] basis.moduli@[i] > 0,
        ensures
            r.basis.moduli@ == basis.moduli@,
            r.limbs@.len() == basis.moduli@.len(),
            forall|i: int|
                0 <= i < r.limbs@.len() ==> {
                    let l = #[trigger] r.limbs@[i];
                    &&& l.coeffs@.len() == coeffs@.len()
                    &&& forall|j: int|
                        0 <= j < coeffs@.len() ==> #[trigger] l.coeffs@[j] == coeffs@[j]
                            % basis.moduli@[i]
                    &&& l.modulus == basis.moduli@[i]
                    &&& l.domain == Domain::Coefficient
                },
    {
        let mut limbs: Vec<Poly> = Vec::new();
        let mut i = 0usize;
        while i < basis.moduli.len()
            invariant
                forall|k: int| 0 <= k < basis.moduli@.len() ==> #[trigger] basis.moduli@[k] > 0,
                i <= basis.moduli@.len(),
                limbs@.len() == i,
                forall|k: int|
                    0 <= k < i ==> {
                        let l = #[trigger] limbs@[k];
                        &&& l.coeffs@.len() == coeffs@.len()
                        &&& forall|j: int|
                            0 <= j < coeffs@.len() ==> #[trigger] l.coeffs@[j] == coeffs@[j]
                                % basis.moduli@[k]
                        &&& l.modulus == basis.moduli@[k]
                        &&& l.domain == Domain::Coefficient
                    },
            decreases basis.moduli@.len() - i,
        {
            let q = basis.moduli[i];
            let mut v: Vec<u64> = Vec::with_capacity(coeffs.len());
            let mut j = 0usize;
            while j < coeffs.len()
                invariant
                    q > 0,
                    j <= coeffs@.len(),
                    v@.len() == j,
                    forall|m: int| 0 <= m < j ==> #[trigger] v@[m] == coeffs@[m] % q,
                decreases coeffs@.len() - j,
            {
                v.push(coeffs[j] % q);
                j += 1;
            }
            limbs.push(Poly { coeffs: v, modulus: q, domain: Domain::Coefficient });
            i += 1;
        }
        RnsPoly { limbs, basis }
    }

    /// Limbwise sum.
    pub fn add(&self, other: &Self) -> (r: Self)
        requires
            self.compatible(other),
        ensures
            r.basis.moduli@ == self.basis.moduli@,
            r.limbs@.len() == self.limbs@.len(),
            forall|i: int|
                0 <= i < r.limbs@.len() ==> {
                    let l = #[trigger] r.limbs@[i];
                    &&& l.coeffs@ == add_spec(
                        self.limbs@[i].coeffs@,
                        other.limbs@[i].coeffs@,
                        self.limbs@[i].modulus as int,
                    )
                    &&& l.modulus == self.limbs@[i].modulus
                    &&& l.domain == self.limbs@[i].domain
                },
    {
        let mut limbs: Vec<Poly> = Vec::new();
        let mut i = 0usize;
        while i < self.limbs.len()
            invariant
                self.compatible(other),
                i <= self.limbs@.len(),
                limbs@.len() == i,
                forall|k: int|
                    0 <= k < i ==> {
                        let l = #[trigger] limbs@[k];
                        &&& l.coeffs@ == add_spec(
                            self.limbs@[k].coeffs@,
                            other.limbs@[k].coeffs@,
                            self.limbs@[k].modulus as int,
                        )
                        &&& l.modulus == self.limbs@[k].modulus
                        &&& l.domain == self.limbs@[k].domain
                    },
            decreases self.limbs@.len() - i,
        {
            proof {
                let _a = self.limbs@[i as int];
                let _b = other.limbs@[i as int];
                let _a0 = self.limbs@[0];
                let _b0 = other.limbs@[0];
            }
            limbs.push(self.limbs[i].add(&other.limbs[i]));
            i += 1;
        }
        RnsPoly { limbs, basis: self.basis.duplicate() }
    }

    /// Limbwise difference.
    pub fn sub(&self, other: &Self) -> (r: Self)
        requires
            self.compatible(other),
        ensures
            r.basis.moduli@ == self.basis.moduli@,
            r.limbs@.len() == self.limbs@.len(),
            forall|i: int|
                0 <= i < r.limbs@.len() ==> {
                    let l = #[trigger] r.limbs@[i];
                    &&& l.coeffs@ == sub_spec(
                        self.limbs@[i].coeffs@,
                        other.limbs@[i].coeffs@,
                        self.limbs@[i].modulus as int,
                    )
                    &&& l.modulus == self.limbs@[i].modulus
                    &&& l.domain == self.limbs@[i].domain
                },
    {
        let mut limbs: Vec<Poly> = Vec::new();
        let mut i = 0usize;
        while i < self.limbs.len()
            invariant
                self.compatible(other),
                i <= self.limbs@.len(),
                limbs@.len() == i,
                forall|k: int|
                    0 <= k < i ==> {
                        let l = #[trigger] limbs@[k];
                        &&& l.coeffs@ == sub_spec(
                            self.limbs@[k].coeffs@,
                            other.limbs@[k].coeffs@,
                            self.limbs@[k].modulus as int,
                        )
                        &&& l.modulus == self.limbs@[k].modulus
                        &&& l.domain == self.limbs@[k].domain
                    },
            decreases self.limbs@.len() - i,
        {
            proof {
                let _a = self.limbs@[i as int];
                let _b = other.limbs@[i as int];
                let _a0 = self.limbs@[0];
                let _b0 = other.limbs@[0];
            }
            limbs.push(self.limbs[i].sub(&other.limbs[i]));
            i += 1;
        }
        RnsPoly { limbs, basis: self.basis.duplicate() }
    }

    /// Multiply every coefficient of limb `i` by `scalar` modulo `moduli[i]`.
    pub fn scalar_mul(&self, scalar: u64) -> (r: Self)
        requires
            self.shape_ok(),
        ensures
            r.basis.moduli@ == self.basis.moduli@,
            r.limbs@.len() == self.limbs@.len(),
            forall|i: int|
                0 <= i < r.limbs@.len() ==> {
                    let l = #[trigger] r.limbs@[i];
                    &&& l.coeffs@ == scale_const(
                        self.limbs@[i].coeffs@,
                        scalar as int,
                        self.limbs@[i].modulus as int,
                    )
                    &&& l.modulus == self.limbs@[i].modulus
                    &&& l.domain == self.limbs@[i].domain
                },
    {
        let mut limbs: Vec<Poly> = Vec::new();
        let mut i = 0usize;
        while i < self.limbs.len()
            invariant
                self.shape_ok(),
                i <= self.limbs@.len(),
                limbs@.len() == i,
                forall|k: int|
                    0 <= k < i ==> {
                        let l = #[trigger] limbs@[k];
                        &&& l.coeffs@ == scale_const(
                            self.limbs@[k].coeffs@,
                            scalar as int,
                            self.limbs@[k].modulus as int,
                        )
                        &&& l.modulus == self.limbs@[k].modulus
                        &&& l.domain == self.limbs@[k].domain
                    },
            decreases self.limbs@.len() - i,
        {
            let src = &self.limbs[i];
            proof {
                let _a = self.limbs@[i as int];
            }
            let q = src.modulus;
            let n = src.coeffs.len();
            let mut v: Vec<u64> = Vec::with_capacity(n);
            let mut j = 0usize;
            while j < n
                invariant
                    q > 0,
                    n == src.coeffs@.len(),
                    j <= n,
                    v@ == scale_const(src.coeffs@, scalar as int, q as int).subrange(0, j as int),
                decreases n - j,
            {
                v.push(mod_mul(src.coeffs[j], scalar, q));
                j += 1;
                proof {
                    assert(v@ =~= scale_const(src.coeffs@, scalar as int, q as int).subrange(0, j as int));
                }
            }
            proof {
                assert(v@ =~= scale_const(src.coeffs@, scalar as int, q as int));
            }
            limbs.push(Poly { coeffs: v, modulus: q, domain: src.domain });
            i += 1;
        }
        RnsPoly { limbs, basis: self.basis.duplicate() }
    }
}


/// The NTT plan `plan` fits limb `l`: same modulus and degree.
pub open spec fn plan_fits(plan: &NttPlan, l: &Poly) -> bool {
    plan.modulus == l.modulus && plan.degree == l.coeffs@.len()
}

impl RnsPoly {
    /// Limbwise product, limb `i` multiplied with `plans[i]` as in [`Poly::mul`].
    ///
    /// Fails with `RnsBasisMismatch` when there is not one plan per limb, and
    /// otherwise with the error of the first limb whose plan does not fit.
    pub fn mul(&self, other: &Self, plans: &[NttPlan]) -> (r: Result<Self, MathError>)
        requires
            self.wf(),
            other.wf(),
            self.compatible(other),
            forall|i: int| 0 <= i < plans@.len() ==> (#[trigger] plans@[i]).wf(),
        ensures
            plans@.len() != self.limbs@.len() ==> r == Err::<RnsPoly, MathError>(
                (MathError::RnsBasisMismatch { expected: self.limbs@.len() as usize, got: plans@.len() as usize }),
            ),
            r is Ok <==> (plans@.len() == self.limbs@.len() && forall|i: int|
                0 <= i < plans@.len() ==> plan_fits(#[trigger] &plans@[i], &self.limbs@[i])),
            plans@.len() == self.limbs@.len() ==> (r matches Err(e) ==> exists|i: int|
                0 <= i < plans@.len() && !plan_fits(#[trigger] &plans@[i], &self.limbs@[i]) && e
                    == (MathError::NttUnsupported {
                        modulus: self.limbs@[i].modulus,
                        degree: self.limbs@[i].coeffs@.len() as usize,
                    })),
            r matches Ok(p) ==> p.basis.moduli@ == self.basis.moduli@ && p.limbs@.len()
                == self.limbs@.len() && forall|i: int|
                0 <= i < p.limbs@.len() ==> {
                    let l = #[trigger] p.limbs@[i];
                    &&& l.coeffs@ == self.limbs@[i].product_values(&other.limbs@[i], &plans@[i])
                    &&& l.domain == self.limbs@[i].product_domain(&other.limbs@[i])
                    &&& l.modulus == self.limbs@[i].modulus
                    &&& l.wf()
                },
    {
        if plans.len() != self.limbs.len() {
            return Err(MathError::RnsBasisMismatch { expected: self.limbs.len(), got: plans.len() });
        }
        let mut limbs: Vec<Poly> = Vec::new();
        let mut i = 0usize;
        while i < self.limbs.len()
            invariant
                self.wf(),
                other.wf(),
                self.compatible(other),
                forall|k: int| 0 <= k < plans@.len() ==> (#[trigger] plans@[k]).wf(),
                plans@.len() == self.limbs@.len(),
                i <= self.limbs@.len(),
                limbs@.len() == i,
                forall|k: int| 0 <= k < i ==> plan_fits(#[trigger] &plans@[k], &self.limbs@[k]),
                forall|k: int|
                    0 <= k < i ==> {
                        let l = #[trigger] limbs@[k];
                        &&& l.coeffs@ == self.limbs@[k].product_values(&other.limbs@[k], &plans@[k])
                        &&& l.domain == self.limbs@[k].product_domain(&other.limbs@[k])
                        &&& l.modulus == self.limbs@[k].modulus
                        &&& l.wf()
                    },
            decreases self.limbs@.len() - i,
        {
            proof {
                let _a = self.limbs@[i as int];
                let _b = other.limbs@[i as int];
                let _a0 = self.limbs@[0];
                let _b0 = other.limbs@[0];
                let _p = plans@[i as int];
            }
            match self.limbs[i].mul(&other.limbs[i], &plans[i]) {
                Ok(p) => {
                    limbs.push(p);
                },
                Err(e) => {
                    return Err(e);
                },
            }
            i += 1;
        }
        Ok(RnsPoly { limbs, basis: self.basis.duplicate() })
    }

    /// Convert every limb to the NTT domain of its plan.
    ///
    /// Fails with `RnsBasisMismatch` when there is not one plan per limb, and
    /// with `NttUnsupported` for the first limb in coefficient form whose plan
    /// does not fit; nothing is changed when it fails.
    pub fn ntt_forward(&mut self, plans: &[NttPlan]) -> (r: Result<(), MathError>)
        requires
            old(self).shape_ok(),
            forall|i: int| 0 <= i < plans@.len() ==> (#[trigger] plans@[i]).wf(),
        ensures
            plans@.len() != old(self).limbs@.len() ==> r == Err::<(), MathError>(
                (MathError::RnsBasisMismatch { expected: old(self).limbs@.len() as usize, got: plans@.len() as usize }),
            ),
            r is Ok <==> (plans@.len() == old(self).limbs@.len() && forall|i: int|
                0 <= i < plans@.len() ==> (old(self).limbs@[i].domain == Domain::Ntt || plan_fits(
                    #[trigger] &plans@[i],
                    &old(self).limbs@[i],
                ))),
            r is Err ==> *final(self) == *old(self),
            plans@.len() == old(self).limbs@.len() ==> (r matches Err(e) ==> exists|i: int|
                0 <= i < plans@.len() && old(self).limbs@[i].domain == Domain::Coefficient
                    && !plan_fits(#[trigger] &plans@[i], &old(self).limbs@[i]) && e
                    == (MathError::NttUnsupported {
                        modulus: old(self).limbs@[i].modulus,
                        degree: old(self).limbs@[i].coeffs@.len() as usize,
                    })),
            r is Ok ==> final(self).basis == old(self).basis && final(self).limbs@.len() == old(
                self,
            ).limbs@.len() && forall|i: int|
                0 <= i < final(self).limbs@.len() ==> {
                    let l = #[trigger] final(self).limbs@[i];
                    let o = old(self).limbs@[i];
                    &&& l.coeffs@ == o.ntt_values(&plans@[i])
                    &&& l.domain == Domain::Ntt
                    &&& l.modulus == o.modulus
                },
    {
        let n = self.limbs.len();
        if plans.len() != n {
            return Err(MathError::RnsBasisMismatch { expected: n, got: plans.len() });
        }
        let mut i = 0usize;
        while i < n
            invariant
                n == self.limbs@.len() == plans@.len(),
                i <= n,
                forall|k: int|
                    0 <= k < i ==> (self.limbs@[k].domain == Domain::Ntt || plan_fits(
                        #[trigger] &plans@[k],
                        &self.limbs@[k],
                    )),
            decreases n - i,
        {
            let l = &self.limbs[i];
            if l.domain == Domain::Coefficient && (plans[i].modulus != l.modulus || plans[i].degree
                != l.coeffs.len()) {
                return Err(MathError::NttUnsupported { modulus: l.modulus, degree: l.coeffs.len() });
            }
            i += 1;
        }
        let mut limbs: Vec<Poly> = Vec::new();
        let mut k = 0usize;
        while k < n
            invariant
                n == self.limbs@.len() == plans@.len(),
                forall|m: int| 0 <= m < plans@.len() ==> (#[trigger] plans@[m]).wf(),
                forall|m: int|
                    0 <= m < n ==> (self.limbs@[m].domain == Domain::Ntt || plan_fits(
                        #[trigger] &plans@[m],
                        &self.limbs@[m],
                    )),
                k <= n,
                limbs@.len() == k,
                forall|m: int|
                    0 <= m < k ==> {
                        let l = #[trigger] limbs@[m];
                        let o = self.limbs@[m];
                        &&& l.coeffs@ == o.ntt_values(&plans@[m])
                        &&& l.domain == Domain::Ntt
                        &&& l.modulus == o.modulus
                    },
            decreases n - k,
        {
            let mut p = self.limbs[k].duplicate();
            proof {
                let _p = plans@[k as int];
            }
            let _ = p.ntt_forward(&plans[k]);
            limbs.push(p);
            k += 1;
        }
        self.limbs = limbs;
        Ok(())
    }

    /// Convert every limb from the NTT domain of its plan back to coefficients.
    ///
    /// Fails with `RnsBasisMismatch` when there is not one plan per limb, and
    /// with `NttUnsupported` for the first limb in the NTT domain whose plan
    /// does not fit; nothing is changed when it fails.
    pub fn ntt_inverse(&mut self, plans: &[NttPlan]) -> (r: Result<(), MathError>)
        requires
            old(self).wf(),
            forall|i: int| 0 <= i < plans@.len() ==> (#[trigger] plans@[i]).wf(),
        ensures
            plans@.len() != old(self).limbs@.len() ==> r == Err::<(), MathError>(
                (MathError::RnsBasisMismatch { expected: old(self).limbs@.len() as usize, got: plans@.len() as usize }),
            ),
            r is Ok <==> (plans@.len() == old(self).limbs@.len() && forall|i: int|
                0 <= i < plans@.len() ==> (old(self).limbs@[i].domain == Domain::Coefficient
                    || plan_fits(#[trigger] &plans@[i], &old(self).limbs@[i]))),
            r is Err ==> *final(self) == *old(self),
            plans@.len() == old(self).limbs@.len() ==> (r matches Err(e) ==> exists|i: int|
                0 <= i < plans@.len() && old(self).limbs@[i].domain == Domain::Ntt && !plan_fits(
                    #[trigger] &plans@[i],
                    &old(self).limbs@[i],
                ) && e == (MathError::NttUnsupported {
                    modulus: old(self).limbs@[i].modulus,
                    degree: old(self).limbs@[i].coeffs@.len() as usize,
                })),
            r is Ok ==> final(self).basis == old(self).basis && final(self).limbs@.len() == old(
                self,
            ).limbs@.len() && forall|i: int|
                0 <= i < final(self).limbs@.len() ==> {
                    let l = #[trigger] final(self).limbs@[i];
                    let o = old(self).limbs@[i];
                    &&& l.coeffs@ == if o.domain == Domain::Ntt {
                        plans@[i].inverse_spec(o.coeffs@)
                    } else {
                        o.coeffs@
                    }
                    &&& l.domain == Domain::Coefficient
                    &&& l.modulus == o.modulus
                    &&& l.wf()
                },
    {
        let n = self.limbs.len();
        if plans.len() != n {
            return Err(MathError::RnsBasisMismatch { expected: n, got: plans.len() });
        }
        let mut i = 0usize;
        while i < n
            invariant
                n == self.limbs@.len() == plans@.len(),
                i <= n,
                forall|k: int|
                    0 <= k < i ==> (self.limbs@[k].domain == Domain::Coefficient || plan_fits(
                        #[trigger] &plans@[k],
                        &self.limbs@[k],
                    )),
            decreases n - i,
        {
            let l = &self.limbs[i];
            if l.domain == Domain::Ntt && (plans[i].modulus != l.modulus || plans[i].degree
                != l.coeffs.len()) {
                return Err(MathError::NttUnsupported { modulus: l.modulus, degree: l.coeffs.len() });
            }
            i += 1;
        }
        let mut limbs: Vec<Poly> = Vec::new();
        let mut k = 0usize;
        while k < n
            invariant
                n == self.limbs@.len() == plans@.len(),
                self.wf(),
                forall|m: int| 0 <= m < plans@.len() ==> (#[trigger] plans@[m]).wf(),
                forall|m: int|
                    0 <= m < n ==> (self.limbs@[m].domain == Domain::Coefficient || plan_fits(
                        #[trigger] &plans@[m],
                        &self.limbs@[m],
                    )),
                k <= n,
                limbs@.len() == k,
                forall|m: int|
                    0 <= m < k ==> {
                        let l = #[trigger] limbs@[m];
                        let o = self.limbs@[m];
                        &&& l.coeffs@ == if o.domain == Domain::Ntt {
                            plans@[m].inverse_spec(o.coeffs@)
                        } else {
                            o.coeffs@
                        }
                        &&& l.domain == Domain::Coefficient
                        &&& l.modulus == o.modulus
                        &&& l.wf()
                    },
            decreases n - k,
        {
            let mut p = self.limbs[k].duplicate();
            proof {
                let _p = plans@[k as int];
                let _o = self.limbs@[k as int];
            }
            let _ = p.ntt_inverse(&plans[k]);
            limbs.push(p);
            k += 1;
        }
        self.limbs = limbs;
        Ok(())
    }
}

/// The centered representative of a residue `delta` modulo `q`, in `(-q/2, q/2]`.
pub open spec fn centered(delta: int, q: int) -> int {
    if delta > q / 2 {
        delta - q
    } else {
        delta
    }
}

/// `(c - centered(delta, q_last)) mod q` for residues `c < q` and `delta < q_last`.
fn sub_centered(c: u64, delta: u64, q_last: u64, q: u64) -> (r: u64)
    requires
        c < q,
        delta < q_last,
    ensures
        r == (c - centered(delta as int, q_last as int)) % (q as int),
{
    let d = delta % q;
    if delta > q_last / 2 {
        let a = q_last % q;
        let s = mod_add(c, a, q);
        proof {
            crate::arith::lemma_mod_range(delta as int, q as int);
            crate::arith::lemma_mod_range(q_last as int, q as int);
            crate::arith::lemma_mod_add_both(c as int, q_last as int, q as int);
            crate::arith::lemma_mod_small(c as int, q as int);
            crate::arith::lemma_mod_sub_both(c + q_last, delta as int, q as int);
        }
        mod_sub(s, d, q)
    } else {
        proof {
            crate::arith::lemma_mod_range(delta as int, q as int);
            crate::arith::lemma_mod_sub_both(c as int, delta as int, q as int);
            crate::arith::lemma_mod_small(c as int, q as int);
        }
        mod_sub(c, d, q)
    }
}

impl RnsPoly {
    /// The last modulus is invertible modulo each other modulus.
    pub open spec fn last_invertible(&self) -> bool {
        let qs = self.basis.moduli@;
        let ql = qs[qs.len() - 1];
        forall|i: int|
            0 <= i < qs.len() - 1 ==> #[trigger] qs[i] > 1 && gcd((ql % qs[i]) as nat, qs[i] as nat)
                == 1
    }

    /// Rescale: drop the last limb and divide by its modulus `q_last`.
    ///
    /// Coefficient `j` of limb `i < L-1` becomes the residue `r` modulo `q_i` with
    /// `r * q_last == c_ij - centered(delta_j) (mod q_i)`, where `delta_j` is
    /// coefficient `j` of the last limb lifted to `(-q_last/2, q_last/2]`.
    /// Fails with `RnsBasisMismatch` for fewer than two limbs and with
    /// `NotPrime(q_i)` when `q_last` has no inverse modulo some `q_i`.
    pub fn mod_down(&self) -> (r: Result<Self, MathError>)
        requires
            self.wf(),
        ensures
            self.limbs@.len() < 2 ==> r == Err::<RnsPoly, MathError>(
                (MathError::RnsBasisMismatch { expected: 2, got: self.limbs@.len() as usize }),
            ),
            self.limbs@.len() >= 2 ==> (r is Ok <==> self.last_invertible()),
            self.limbs@.len() >= 2 ==> (r matches Err(e) ==> exists|i: int|
                0 <= i < self.limbs@.len() - 1 && e == MathError::NotPrime(
                    #[trigger] self.basis.moduli@[i],
                )),
            r matches Ok(p) ==> {
                let qs = self.basis.moduli@;
                let ql = qs[qs.len() - 1];
                let last = self.limbs@[self.limbs@.len() - 1];
                &&& p.basis.moduli@ == qs.drop_last()
                &&& p.limbs@.len() == self.limbs@.len() - 1
                &&& p.wf()
                &&& forall|i: int|
                    0 <= i < p.limbs@.len() ==> {
                        let l = #[trigger] p.limbs@[i];
                        let o = self.limbs@[i];
                        &&& l.modulus == o.modulus
                        &&& l.domain == o.domain
                        &&& l.coeffs@.len() == o.coeffs@.len()
                        &&& forall|j: int|
                            0 <= j < l.coeffs@.len() ==> (#[trigger] l.coeffs@[j] * ql) % (
                            o.modulus as int) == (o.coeffs@[j] - centered(
                                last.coeffs@[j] as int,
                                ql as int,
                            )) % (o.modulus as int)
                    }
            },
    {
        let nl = self.limbs.len();
        if nl < 2 {
            return Err(MathError::RnsBasisMismatch { expected: 2, got: nl });
        }
        let last = &self.limbs[nl - 1];
        let q_last = last.modulus;
        let ghost qs = self.basis.moduli@;
        proof {
            let _l = self.limbs@[nl - 1];
            let _l0 = self.limbs@[0];
        }
        let mut limbs: Vec<Poly> = Vec::new();
        let mut moduli: Vec<u64> = Vec::new();
        let mut i = 0usize;
        while i < nl - 1
            invariant
                self.wf(),
                nl == self.limbs@.len(),
                nl >= 2,
                qs == self.basis.moduli@,
                *last == self.limbs@[nl - 1],
                q_last == qs[nl - 1],
                i <= nl - 1,
                limbs@.len() == i,
                moduli@ == qs.subrange(0, i as int),
                forall|k: int| 0 <= k < i ==> #[trigger] qs[k] > 1 && gcd((q_last % qs[k]) as nat, qs[k] as nat) == 1,
                forall|k: int|
                    0 <= k < i ==> {
                        let l = #[trigger] limbs@[k];
                        let o = self.limbs@[k];
                        &&& l.modulus == o.modulus
                        &&& l.domain == o.domain
                        &&& l.coeffs@.len() == o.coeffs@.len()
                        &&& l.wf()
                        &&& forall|j: int|
                            0 <= j < l.coeffs@.len() ==> (#[trigger] l.coeffs@[j] * q_last) % (
                            o.modulus as int) == (o.coeffs@[j] - centered(
                                last.coeffs@[j] as int,
                                q_last as int,
                            )) % (o.modulus as int)
                    },
            decreases nl - 1 - i,
        {
            let src = &self.limbs[i];
            proof {
                let _o = self.limbs@[i as int];
                assert(src.wf());
                assert(last.wf());
            }
            let q = src.modulus;
            let inv = match general_mod_inv(q_last, q) {
                Some(v) => v,
                None => {
                    return Err(MathError::NotPrime(q));
                },
            };
            let n = src.coeffs.len();
            let mut v: Vec<u64> = Vec::with_capacity(n);
            let mut j = 0usize;
            while j < n
                invariant
                    self.wf(),
                    i < nl - 1,
                    *src == self.limbs@[i as int],
                    *last == self.limbs@[nl - 1],
                    src.wf(),
                    last.wf(),
                    q == src.modulus,
                    q > 1,
                    inv < q,
                    (q_last * inv) % (q as int) == 1,
                    n == src.coeffs@.len(),
                    n == last.coeffs@.len(),
                    q_last == last.modulus,
                    j <= n,
                    v@.len() == j,
                    forall|m: int| 0 <= m < j ==> #[trigger] v@[m] < q,
                    forall|m: int|
                        0 <= m < j ==> (#[trigger] v@[m] * q_last) % (q as int) == (src.coeffs@[m]
                            - centered(last.coeffs@[m] as int, q_last as int)) % (q as int),
                decreases n - j,
            {
                let c = src.coeffs[j];
                let delta = last.coeffs[j];
                let d = sub_centered(c, delta, q_last, q);
                let x = mod_mul(d, inv, q);
                proof {
                    crate::arith::lemma_mod_range(d * inv, q as int);
                    crate::arith::lemma_mod_range(c - centered(delta as int, q_last as int), q as int);
                    assert((inv * q_last) % (q as int) == 1) by {
                        assert(inv * q_last == q_last * inv) by (nonlinear_arith);
                    }
                    crate::arith::lemma_mod_mul_cancel(d as int, inv as int, q_last as int, q as int);
                }
                v.push(x);
                j += 1;
            }
            limbs.push(Poly { coeffs: v, modulus: q, domain: src.domain });
            moduli.push(q);
            i += 1;
            proof {
                assert(moduli@ =~= qs.subrange(0, i as int));
            }
        }
        proof {
            assert(moduli@ =~= qs.drop_last());
        }
        Ok(RnsPoly { limbs, basis: RnsBasis { moduli } })
    }
}

/// Product of the first `k` moduli.
pub open spec fn prefix_product(qs: Seq<u64>, k: nat) -> nat
    decreases k,
{
    if k == 0 {
        1
    } else {
        prefix_product(qs, (k - 1) as nat) * (qs[k - 1] as nat)
    }
}

/// Prefix products of positive moduli are positive, grow with `k`, and are
/// multiples of each modulus they include.
proof fn lemma_prefix_product(qs: Seq<u64>, k: nat, k2: nat)
    requires
        k <= k2 <= qs.len(),
        forall|i: int| 0 <= i < qs.len() ==> #[trigger] qs[i] > 0,
    ensures
        prefix_product(qs, k) > 0,
        prefix_product(qs, k) <= prefix_product(qs, k2),
        forall|i: int| 0 <= i < k ==> #[trigger] (prefix_product(qs, k) % (qs[i] as nat)) == 0,
    decreases k2,
{
    if k2 > k {
        lemma_prefix_product(qs, k, (k2 - 1) as nat);
        let p = prefix_product(qs, (k2 - 1) as nat);
        assert(p <= p * (qs[k2 - 1] as nat)) by (nonlinear_arith)
            requires
                qs[k2 - 1] > 0,
                p > 0,
        ;
    } else if k > 0 {
        lemma_prefix_product(qs, (k - 1) as nat, (k - 1) as nat);
        let p = prefix_product(qs, (k - 1) as nat);
        let q = qs[k - 1] as nat;
        assert(p * q > 0) by (nonlinear_arith)
            requires
                p > 0,
                q > 0,
        ;
        assert forall|i: int| 0 <= i < k implies #[trigger] (prefix_product(qs, k) % (qs[i] as nat))
            == 0 by {
            if i < k - 1 {
                let c = p / (qs[i] as nat);
                vstd::arithmetic::div_mod::lemma_fundamental_div_mod(p as int, qs[i] as int);
                assert(p * q == (c * q) * (qs[i] as nat)) by (nonlinear_arith)
                    requires
                        p == (qs[i] as nat) * c,
                ;
                vstd::arithmetic::div_mod::lemma_mod_multiples_basic((c * q) as int, qs[i] as int);
            } else {
                vstd::arithmetic::div_mod::lemma_mod_multiples_basic(p as int, q as int);
            }
        }
    }
}

/// One step of Garner's method: adding `m * t` fixes the residue modulo `q`.
proof fn lemma_garner_step(a: int, m: int, x: int, inv: int, q: int)
    requires
        q > 0,
        a >= 0,
        (inv * m) % q == 1,
        0 <= x < q,
    ensures
        (a + m * ((((x - a % q) % q) * inv) % q)) % q == x,
{
    let d = (x - a % q) % q;
    crate::arith::lemma_mod_range(x - a % q, q);
    crate::arith::lemma_mod_mul_cancel(d, inv, m, q);
    let t = (d * inv) % q;
    assert(m * t == t * m) by (nonlinear_arith);
    crate::arith::lemma_mod_add_both(a, t * m, q);
    crate::arith::lemma_mod_add_both(a % q, x - a % q, q);
    crate::arith::lemma_mod_idem(a, q);
    crate::arith::lemma_mod_small(x, q);
}

impl RnsPoly {
    /// Garner's mixed-radix CRT reconstruction: coefficient `j` of the result is
    /// the unique value below `Q = q_0 * ... * q_{L-1}` congruent to coefficient
    /// `j` of every limb `i` modulo `q_i`.
    ///
    /// Needs `Q` to fit in a `u128` and each prefix product `q_0 * ... * q_{i-1}`
    /// to be invertible modulo `q_i`, as for distinct primes.
    pub fn crt_reconstruct(&self) -> (r: Vec<u128>)
        requires
            self.wf(),
            prefix_product(self.basis.moduli@, self.basis.moduli@.len()) <= u128::MAX,
            forall|i: int|
                0 < i < self.basis.moduli@.len() ==> #[trigger] self.basis.moduli@[i] > 1 && gcd(
                    (prefix_product(self.basis.moduli@, i as nat) % (self.basis.moduli@[i] as nat)),
                    self.basis.moduli@[i] as nat,
                ) == 1,
        ensures
            r@.len() == (if self.limbs@.len() == 0 {
                0
            } else {
                self.limbs@[0].coeffs@.len()
            }),
            forall|j: int|
                0 <= j < r@.len() ==> #[trigger] r@[j] < prefix_product(
                    self.basis.moduli@,
                    self.basis.moduli@.len(),
                ),
            forall|j: int, i: int|
                0 <= j < r@.len() && 0 <= i < self.limbs@.len() ==> (#[trigger] r@[j] as int) % (
                self.basis.moduli@[i] as int) == #[trigger] self.limbs@[i].coeffs@[j],
    {
        let nl = self.limbs.len();
        let mut out: Vec<u128> = Vec::new();
        if nl == 0 {
            return out;
        }
        let ghost qs = self.basis.moduli@;
        let ghost total = prefix_product(qs, nl as nat);
        let n = self.limbs[0].coeffs.len();
        proof {
            assert forall|i: int| 0 <= i < qs.len() implies #[trigger] qs[i] > 0 by {
                let _l = self.limbs@[i];
            }
        }
        let mut j = 0usize;
        while j < n
            invariant
                self.wf(),
                nl == self.limbs@.len() == qs.len(),
                nl >= 1,
                qs == self.basis.moduli@,
                total == prefix_product(qs, nl as nat),
                total <= u128::MAX,
                forall|i: int| 0 <= i < qs.len() ==> #[trigger] qs[i] > 0,
                forall|i: int|
                    0 < i < qs.len() ==> #[trigger] qs[i] > 1 && gcd(
                        (prefix_product(qs, i as nat) % (qs[i] as nat)),
                        qs[i] as nat,
                    ) == 1,
                n == self.limbs@[0].coeffs@.len(),
                j <= n,
                out@.len() == j,
                forall|m: int| 0 <= m < j ==> #[trigger] out@[m] < total,
                forall|m: int, i: int|
                    0 <= m < j && 0 <= i < nl ==> (#[trigger] out@[m] as int) % (qs[i] as int)
                        == #[trigger] self.limbs@[i].coeffs@[m],
            decreases n - j,
        {
            proof {
                let _l0 = self.limbs@[0];
                assert(self.limbs@[0].wf());
            }
            let mut a: u128 = self.limbs[0].coeffs[j] as u128;
            let mut m: u128 = self.limbs[0].modulus as u128;
            proof {
                lemma_prefix_product(qs, 1, nl as nat);
                assert(prefix_product(qs, 0) == 1);
                assert(1 * (qs[0] as nat) == qs[0] as nat);
                assert(prefix_product(qs, 1) == qs[0]);
                crate::arith::lemma_mod_small(a as int, qs[0] as int);
            }
            let mut i = 1usize;
            while i < nl
                invariant
                    self.wf(),
                    nl == self.limbs@.len() == qs.len(),
                    qs == self.basis.moduli@,
                    total == prefix_product(qs, nl as nat),
                    total <= u128::MAX,
                    forall|k: int| 0 <= k < qs.len() ==> #[trigger] qs[k] > 0,
                    forall|k: int|
                        0 < k < qs.len() ==> #[trigger] qs[k] > 1 && gcd(
                            (prefix_product(qs, k as nat) % (qs[k] as nat)),
                            qs[k] as nat,
                        ) == 1,
                    n == self.limbs@[0].coeffs@.len(),
                    j < n,
                    1 <= i <= nl,
                    m == prefix_product(qs, i as nat),
                    a < m,
                    forall|k: int| 0 <= k < i ==> (a as int) % (qs[k] as int) == #[trigger] self.limbs@[k].coeffs@[j as int],
                decreases nl - i,
            {
                let limb = &self.limbs[i];
                proof {
                    let _l = self.limbs@[i as int];
                    assert(limb.wf());
                    let _l0 = self.limbs@[0];
                }
                let q = limb.modulus;
                let x = limb.coeffs[j];
                let a_mod = (a % (q as u128)) as u64;
                let m_mod = (m % (q as u128)) as u64;
                proof {
                    crate::arith::lemma_mod_range(m as int, q as int);
                    crate::arith::lemma_mod_idem(m as int, q as int);
                    assert(qs[i as int] == q);
                    assert(gcd((m_mod % q) as nat, q as nat) == 1);
                }
                let inv = match general_mod_inv(m_mod, q) {
                    Some(v) => v,
                    None => {
                        proof {
                            assert(false);
                        }
                        0
                    },
                };
                let diff = mod_sub(x, a_mod, q);
                let t = mod_mul(diff, inv, q);
                proof {
                    lemma_prefix_product(qs, (i + 1) as nat, nl as nat);
                    lemma_prefix_product(qs, i as nat, nl as nat);
                    assert(prefix_product(qs, (i + 1) as nat) == m * q);
                    assert(a + m * t < m * q) by (nonlinear_arith)
                        requires
                            a < m,
                            t < q,
                    ;
                    assert((inv * m) % (q as int) == 1) by {
                        crate::arith::lemma_mod_mul_both(m as int, inv as int, q as int);
                        assert(inv * m == m * inv) by (nonlinear_arith);
                    }
                    lemma_garner_step(a as int, m as int, x as int, inv as int, q as int);
                    assert forall|k: int| 0 <= k < i + 1 implies ((a + m * t) as int) % (qs[k] as int)
                        == #[trigger] self.limbs@[k].coeffs@[j as int] by {
                        if k < i {
                            let c = (m as int) / (qs[k] as int);
                            vstd::arithmetic::div_mod::lemma_fundamental_div_mod(m as int, qs[k] as int);
                            assert(m * t == (c * t) * qs[k]) by (nonlinear_arith)
                                requires
                                    m == qs[k] * c + (m as int) % (qs[k] as int),
                                    (m as int) % (qs[k] as int) == 0,
                            ;
                            crate::arith::lemma_mod_add_multiple(a as int, c * t, qs[k] as int);
                        }
                    }
                }
                a = a + m * (t as u128);
                m = m * (q as u128);
                i += 1;
            }
            out.push(a);
            j += 1;
        }
        out
    }
}

/// Gauss's lemma for a modulus coprime to a factor: if `q` divides `p * t` and
/// `p mod q` is invertible modulo `q`, then `q` divides `t`.
proof fn lemma_coprime_divides(p: int, t: int, q: int)
    requires
        q > 1,
        p >= 0,
        gcd((p % q) as nat, q as nat) == 1,
        (p * t) % q == 0,
    ensures
        t % q == 0,
{
    let g = p % q;
    crate::arith::lemma_mod_range(p, q);
    crate::number_theory::lemma_ext_gcd(g as nat, q as nat);
    let (gg, x, y) = crate::number_theory::ext_gcd(g as nat, q as nat);
    assert(g * x + q * y == 1);
    // g * t == p * t == 0 (mod q)
    crate::arith::lemma_mod_mul_both(p, t, q);
    assert((g * t) % q == 0) by {
        crate::arith::lemma_mod_mul_both(g, t, q);
        crate::arith::lemma_mod_idem(p, q);
    }
    vstd::arithmetic::div_mod::lemma_fundamental_div_mod(g * t, q);
    let k = (g * t) / q;
    assert(t == (k * x + t * y) * q) by (nonlinear_arith)
        requires
            g * x + q * y == 1,
            g * t == q * k + 0,
    ;
    vstd::arithmetic::div_mod::lemma_mod_multiples_basic(k * x + t * y, q);
}

/// The prefix product `q_0 * ... * q_{k-1}` divides the difference of two values
/// that agree modulo each of `q_0, ..., q_{k-1}`.
proof fn lemma_prefix_divides(qs: Seq<u64>, a: int, b: int, k: nat)
    requires
        k <= qs.len(),
        forall|i: int| 0 <= i < qs.len() ==> #[trigger] qs[i] > 0,
        forall|i: int|
            0 < i < qs.len() ==> #[trigger] qs[i] > 1 && gcd(
                (prefix_product(qs, i as nat) % (qs[i] as nat)),
                qs[i] as nat,
            ) == 1,
        forall|i: int| 0 <= i < qs.len() ==> a % (#[trigger] qs[i] as int) == b % (qs[i] as int),
    ensures
        (a - b) % (prefix_product(qs, k) as int) == 0,
    decreases k,
{
    lemma_prefix_product(qs, k, k);
    if k == 0 {
        vstd::arithmetic::div_mod::lemma_mod_multiples_basic(a - b, 1);
        assert((a - b) * 1 == a - b);
    } else {
        let k1 = (k - 1) as nat;
        lemma_prefix_divides(qs, a, b, k1);
        lemma_prefix_product(qs, k1, k1);
        let p = prefix_product(qs, k1) as int;
        let q = qs[k1 as int] as int;
        vstd::arithmetic::div_mod::lemma_fundamental_div_mod(a - b, p);
        let t = (a - b) / p;
        assert(a - b == p * t);
        vstd::arithmetic::div_mod::lemma_mod_equivalence(a, b, q);
        assert((p * t) % q == 0);
        if k1 > 0 {
            lemma_coprime_divides(p, t, q);
        } else {
            assert(p == 1);
            assert(p * t == t) by (nonlinear_arith)
                requires
                    p == 1,
            ;
        }
        vstd::arithmetic::div_mod::lemma_fundamental_div_mod(t, q);
        let s = t / q;
        assert(a - b == s * (p * q)) by (nonlinear_arith)
            requires
                a - b == p * t,
                t == q * s + 0,
        ;
        assert(prefix_product(qs, k) == (p * q) as nat);
        vstd::arithmetic::div_mod::lemma_mod_multiples_basic(s, p * q);
    }
}

/// A product of primes other than the prime `q` is not divisible by `q`.
proof fn lemma_prefix_not_divisible(qs: Seq<u64>, k: nat, q: nat)
    requires
        k <= qs.len(),
        crate::number_theory::is_prime(q),
        forall|i: int| 0 <= i < k ==> crate::number_theory::is_prime(#[trigger] qs[i] as nat),
        forall|i: int| 0 <= i < k ==> #[trigger] qs[i] as nat != q,
    ensures
        (prefix_product(qs, k) as int) % (q as int) != 0,
    decreases k,
{
    if k == 0 {
        crate::arith::lemma_mod_small(1, q as int);
    } else {
        let k1 = (k - 1) as nat;
        lemma_prefix_not_divisible(qs, k1, q);
        let r = qs[k1 as int] as nat;
        assert(crate::number_theory::is_prime(r));
        if (prefix_product(qs, k) as int) % (q as int) == 0 {
            crate::number_theory::lemma_euclid(q, prefix_product(qs, k1) as int, r as int);
            // q divides the prime r, so q == r
            if q < r {
                assert(r % q != 0);
            } else if q > r {
                crate::arith::lemma_mod_small(r as int, q as int);
            }
        }
    }
}

/// For pairwise distinct prime moduli, as a modulus chain holds, each prefix
/// product `q_0 * ... * q_{i-1}` is invertible modulo `q_i`: the condition
/// that `crt_reconstruct` and `lemma_crt_unique` ask for.
pub proof fn lemma_distinct_primes_coprime_prefix(qs: Seq<u64>)
    requires
        forall|i: int| 0 <= i < qs.len() ==> crate::number_theory::is_prime(#[trigger] qs[i] as nat),
        forall|i: int, j: int| 0 <= i < j < qs.len() ==> #[trigger] qs[i] != #[trigger] qs[j],
    ensures
        forall|i: int|
            0 < i < qs.len() ==> #[trigger] qs[i] > 1 && gcd(
                (prefix_product(qs, i as nat) % (qs[i] as nat)),
                qs[i] as nat,
            ) == 1,
{
    assert forall|i: int| 0 < i < qs.len() implies #[trigger] qs[i] > 1 && gcd(
        (prefix_product(qs, i as nat) % (qs[i] as nat)),
        qs[i] as nat,
    ) == 1 by {
        let q = qs[i] as nat;
        assert(crate::number_theory::is_prime(q));
        assert forall|k: int| 0 <= k < i implies #[trigger] qs[k] as nat != q by {
            assert(qs[k] != qs[i]);
        }
        lemma_prefix_not_divisible(qs, i as nat, q);
        let a = prefix_product(qs, i as nat) % q;
        crate::arith::lemma_mod_range(prefix_product(qs, i as nat) as int, q as int);
        let g = gcd(a, q);
        crate::number_theory::lemma_gcd_pos(a, q);
        crate::number_theory::lemma_gcd_divides(a, q);
        crate::number_theory::lemma_mod_is_zero_le(q, g);
        if g != 1 {
            if g < q {
                assert(q % g != 0);
            } else {
                assert(g == q);
                crate::arith::lemma_mod_small(a as int, q as int);
                assert(a % g == a);
            }
        }
    }
}

/// CRT uniqueness: two values below `Q = q_0 * ... * q_{L-1}` with the same
/// residue modulo every `q_i` are equal, when each prefix product is invertible
/// modulo the next modulus. So `crt_reconstruct` gives back every coefficient
/// below `Q` of a polynomial from its RNS form.
pub proof fn lemma_crt_unique(qs: Seq<u64>, a: nat, b: nat)
    requires
        forall|i: int| 0 <= i < qs.len() ==> #[trigger] qs[i] > 0,
        forall|i: int|
            0 < i < qs.len() ==> #[trigger] qs[i] > 1 && gcd(
                (prefix_product(qs, i as nat) % (qs[i] as nat)),
                qs[i] as nat,
            ) == 1,
        a < prefix_product(qs, qs.len()),
        b < prefix_product(qs, qs.len()),
        forall|i: int| 0 <= i < qs.len() ==> (a as int) % (#[trigger] qs[i] as int) == (b as int) % (
        qs[i] as int),
    ensures
        a == b,
{
    lemma_prefix_divides(qs, a as int, b as int, qs.len());
    let big = prefix_product(qs, qs.len()) as int;
    vstd::arithmetic::div_mod::lemma_fundamental_div_mod(a - b, big);
    let t = (a - b) / big;
    assert(a - b == big * t);
    if t > 0 {
        assert(big * t >= big) by (nonlinear_arith)
            requires
                t >= 1,
                big > 0,
        ;
    } else if t < 0 {
        assert(big * t <= -big) by (nonlinear_arith)
            requires
                t <= -1,
                big > 0,
        ;
    } else {
        assert(big * t == 0) by (nonlinear_arith)
            requires
                t == 0,
        ;
    }
}
/// For pairwise distinct prime moduli, reconstruction gives a coefficient
/// back: a value `r` below `Q` that agrees with `c < Q` modulo every `q_i`
/// (as `crt_reconstruct` returns for the RNS form that `from_coeffs` builds
/// from `c`) is `c`.
pub proof fn lemma_crt_recovers_for_distinct_primes(qs: Seq<u64>, r: nat, c: nat)
    requires
        forall|i: int| 0 <= i < qs.len() ==> crate::number_theory::is_prime(#[trigger] qs[i] as nat),
        forall|i: int, j: int| 0 <= i < j < qs.len() ==> #[trigger] qs[i] != #[trigger] qs[j],
        r < prefix_product(qs, qs.len()),
        c < prefix_product(qs, qs.len()),
        forall|i: int| 0 <= i < qs.len() ==> (r as int) % (#[trigger] qs[i] as int) == (c as int) % (
        qs[i] as int),
    ensures
        r == c,
{
    lemma_distinct_primes_coprime_prefix(qs);
    assert forall|i: int| 0 <= i < qs.len() implies #[trigger] qs[i] > 0 by {
        assert(crate::number_theory::is_prime(qs[i] as nat));
    }
    lemma_crt_unique(qs, r, c);
}

} // verus!
