//! The `concrete-ntt` negacyclic transform, kept as an independent reference
//! against which the plans of [`crate::ntt`] can be compared.

use crate::arith::is_pow2;
use crate::error::MathError;
use crate::modular::{mod_inv, mod_mul};
use crate::ntt_build::ntt_friendly;
use crate::number_theory::is_prime;
use crate::ntt_spec::scale_by;
use vstd::arithmetic::power::pow;
use vstd::prelude::*;

verus! {

/// `concrete_ntt::prime64::Plan`, known to Verus as an opaque type.
#[verifier::external_type_specification]
#[verifier::external_body]
pub struct ExConcreteNttPlan(concrete_ntt::prime64::Plan);

/// The residues modulo `modulus` of the negacyclic transform that
/// `concrete_ntt::prime64::Plan::fwd` computes of the residues `data`, for
/// the plan built by `Plan::try_new(degree, modulus)`.
pub uninterp spec fn concrete_forward(modulus: u64, degree: usize, data: Seq<u64>) -> Seq<u64>;

/// The residues modulo `modulus` of the inverse transform (without the
/// factor `n^{-1}`) that `concrete_ntt::prime64::Plan::inv` computes of the
/// residues `data`, for the plan built by `Plan::try_new(degree, modulus)`.
pub uninterp spec fn concrete_inverse(modulus: u64, degree: usize, data: Seq<u64>) -> Seq<u64>;

/// Calls `concrete_ntt::prime64::Plan::try_new(degree, modulus)`.
///
/// Its source returns `None` exactly when `degree < 16`, `degree` is not a
/// power of two, `is_prime64(modulus)` fails, or `find_primitive_root64`
/// finds no `2 * degree`-th root. `is_prime64` is documented as a
/// deterministic primality test for every 64-bit value, and
/// `find_primitive_root64` runs the non-residue search and Tonelli-Shanks
/// iteration of [`crate::ntt_build::primitive_root_of_unity`], which is proved
/// to succeed for a prime modulus with `2 * degree` dividing `modulus - 1`;
/// so the plan exists in that case. For other moduli what it returns is not
/// stated. `Div64::new` asserts `modulus > 1` and the root search forms
/// `2 * degree` as a `u64`, hence the preconditions.
#[verifier::external_body]
fn concrete_plan_try_new(degree: usize, modulus: u64) -> (r: Option<concrete_ntt::prime64::Plan>)
    requires
        modulus > 1,
        2 * degree <= u64::MAX,
    ensures
        (degree < 16 || !is_pow2(degree as nat)) ==> r is None,
        (degree >= 16 && is_pow2(degree as nat) && is_prime(modulus as nat) && (modulus - 1) % (2
            * degree as int) == 0) ==> r is Some,
{
    concrete_ntt::prime64::Plan::try_new(degree, modulus)
}

/// A negacyclic NTT plan of `concrete-ntt` for a `(modulus, degree)` pair.
pub struct ConcreteNttRefPlan {
    modulus: u64,
    degree: usize,
    inv_degree: u64,
    inner: concrete_ntt::prime64::Plan,
}

/// Calls `concrete_ntt::prime64::Plan::fwd` on the plan's inner `concrete-ntt` plan.
///
/// The inner plan is the one `Plan::try_new(degree, modulus)` built in
/// [`ConcreteNttRefPlan::new`]. `fwd` picks a kernel by the machine (scalar,
/// AVX2, AVX-512); its documentation says the buffer then holds the
/// transform's coefficients, so only their residues modulo the modulus are
/// named, for residue input. `fwd` asserts that the buffer length is the
/// plan's size.
#[verifier::external_body]
fn concrete_fwd(plan: &ConcreteNttRefPlan, data: &mut [u64])
    requires
        old(data)@.len() == plan.degree(),
        forall|i: int| 0 <= i < old(data)@.len() ==> #[trigger] old(data)@[i] < plan.modulus(),
    ensures
        final(data)@.len() == old(data)@.len(),
        forall|i: int|
            0 <= i < final(data)@.len() ==> (#[trigger] final(data)@[i] as int) % (
            plan.modulus() as int) == concrete_forward(plan.modulus(), plan.degree(), old(data)@)[i]
                as int,
{
    plan.inner.fwd(data)
}

/// Calls `concrete_ntt::prime64::Plan::inv` on the plan's inner `concrete-ntt` plan.
///
/// As for [`concrete_fwd`], only the residues of the result are named, for
/// residue input.
#[verifier::external_body]
fn concrete_inv(plan: &ConcreteNttRefPlan, data: &mut [u64])
    requires
        old(data)@.len() == plan.degree(),
        forall|i: int| 0 <= i < old(data)@.len() ==> #[trigger] old(data)@[i] < plan.modulus(),
    ensures
        final(data)@.len() == old(data)@.len(),
        forall|i: int|
            0 <= i < final(data)@.len() ==> (#[trigger] final(data)@[i] as int) % (
            plan.modulus() as int) == concrete_inverse(plan.modulus(), plan.degree(), old(data)@)[i]
                as int,
{
    plan.inner.inv(data)
}

impl ConcreteNttRefPlan {
    /// The plan's modulus.
    pub closed spec fn modulus(&self) -> u64 {
        self.modulus
    }

    /// The plan's transform length.
    pub closed spec fn degree(&self) -> usize {
        self.degree
    }

    /// The inverse of the degree used to normalize the inverse transform.
    pub closed spec fn inv_degree(&self) -> u64 {
        self.inv_degree
    }

    /// The modulus of the plan.
    pub fn get_modulus(&self) -> (r: u64)
        ensures
            r == self.modulus(),
    {
        self.modulus
    }

    /// The transform length of the plan.
    pub fn get_degree(&self) -> (r: usize)
        ensures
            r == self.degree(),
    {
        self.degree
    }

    /// Build the reference plan.
    ///
    /// Fails with `DegreeNotPowerOfTwo` exactly when `degree` is not a power of
    /// two, and with `NttUnsupported` when `concrete-ntt` has no plan for the
    /// pair: always when `degree < 16`, never when `degree >= 16` and the
    /// modulus is a prime with `2 * degree` dividing `modulus - 1`.
    pub fn new(modulus: u64, degree: usize) -> (r: Result<Self, MathError>)
        requires
            is_pow2(degree as nat) ==> modulus > 1 && 2 * degree <= u64::MAX,
        ensures
            !is_pow2(degree as nat) <==> r == Err::<ConcreteNttRefPlan, MathError>(
                MathError::DegreeNotPowerOfTwo(degree),
            ),
            is_pow2(degree as nat) && degree < 16 ==> r == Err::<ConcreteNttRefPlan, MathError>(
                (MathError::NttUnsupported { modulus, degree }),
            ),
            r matches Err(e) ==> e == MathError::DegreeNotPowerOfTwo(degree) || e
                == (MathError::NttUnsupported { modulus, degree }),
            r matches Ok(p) ==> p.modulus() == modulus && p.degree() == degree && p.inv_degree()
                == pow(degree as int, (modulus - 2) as nat) % (modulus as int) && modulus > 1,
            is_pow2(degree as nat) && degree >= 16 && ntt_friendly(modulus as nat, degree as nat)
                ==> r is Ok,
    {
        proof {
            crate::arith::lemma_pow2_bit_test(degree as u64);
        }
        let d64 = degree as u64;
        if degree == 0 || d64 & (d64 - 1) != 0 {
            return Err(MathError::DegreeNotPowerOfTwo(degree));
        }
        let inner = match concrete_plan_try_new(degree, modulus) {
            Some(p) => p,
            None => {
                return Err(MathError::NttUnsupported { modulus, degree });
            },
        };
        Ok(ConcreteNttRefPlan {
            modulus,
            degree,
            inv_degree: mod_inv(degree as u64, modulus),
            inner,
        })
    }

    /// Forward transform in the backend's native (bit-reversed) layout, of
    /// residues modulo the plan's modulus.
    pub fn forward(&self, data: &mut [u64])
        requires
            old(data)@.len() == self.degree(),
            forall|i: int| 0 <= i < old(data)@.len() ==> #[trigger] old(data)@[i] < self.modulus(),
        ensures
            final(data)@.len() == old(data)@.len(),
            forall|i: int|
                0 <= i < final(data)@.len() ==> (#[trigger] final(data)@[i] as int) % (
                self.modulus() as int) == concrete_forward(self.modulus(), self.degree(), old(data)@)[i]
                    as int,
    {
        concrete_fwd(self, data);
    }

    /// Inverse transform of residues, followed by multiplication with `n^{-1}`.
    pub fn inverse(&self, data: &mut [u64])
        requires
            old(data)@.len() == self.degree(),
            forall|i: int| 0 <= i < old(data)@.len() ==> #[trigger] old(data)@[i] < self.modulus(),
            self.modulus() > 1,
        ensures
            final(data)@.len() == old(data)@.len(),
            forall|i: int|
                0 <= i < final(data)@.len() ==> #[trigger] final(data)@[i] as int == ((concrete_inverse(
                    self.modulus(),
                    self.degree(),
                    old(data)@,
                )[i] as int) * (self.inv_degree() as int)) % (self.modulus() as int),
    {
        let ghost input = data@;
        concrete_inv(self, data);
        let ghost mid = data@;
        let ghost named = concrete_inverse(self.modulus, self.degree, input);
        let n = data.len();
        let mut i = 0usize;
        while i < n
            invariant
                self.modulus > 1,
                n == data@.len() == mid.len(),
                i <= n,
                forall|k: int|
                    0 <= k < n ==> (#[trigger] mid[k] as int) % (self.modulus as int) == named[k]
                        as int,
                forall|k: int|
                    0 <= k < i ==> #[trigger] data@[k] as int == ((named[k] as int) * (
                    self.inv_degree as int)) % (self.modulus as int),
                forall|k: int| i <= k < n ==> #[trigger] data@[k] == mid[k],
            decreases n - i,
        {
            proof {
                crate::arith::lemma_mod_mul_both(
                    mid[i as int] as int,
                    self.inv_degree as int,
                    self.modulus as int,
                );
            }
            data[i] = mod_mul(data[i], self.inv_degree, self.modulus);
            i += 1;
        }
    }

    /// Elementwise product `a[i] = a[i] * b[i] mod q` of two spectra.
    pub fn pointwise_mul(&self, a: &mut [u64], b: &[u64])
        requires
            old(a)@.len() == b@.len(),
            old(a)@.len() == self.degree(),
            self.modulus() > 1,
        ensures
            final(a)@ == scale_by(old(a)@, b@, self.modulus() as int),
    {
        let ghost before = a@;
        let n = a.len();
        let mut i = 0usize;
        while i < n
            invariant
                self.modulus > 1,
                n == a@.len() == before.len() == b@.len(),
                i <= n,
                forall|k: int|
                    0 <= k < i ==> #[trigger] a@[k] == scale_by(before, b@, self.modulus as int)[k],
                forall|k: int| i <= k < n ==> #[trigger] a@[k] == before[k],
            decreases n - i,
        {
            a[i] = mod_mul(a[i], b[i], self.modulus);
            i += 1;
        }
        proof {
            assert(a@ =~= scale_by(before, b@, self.modulus as int));
        }
    }
}

} // verus!
