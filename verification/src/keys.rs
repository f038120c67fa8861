//! CKKS key material: secret, public, relinearization and Galois keys, all
//! held as RNS polynomials.

use crate::rns::RnsPoly;
use std::collections::HashMap;
use vstd::prelude::*;

verus! {

/// CKKS secret key: a ternary polynomial `s` (coefficients in `{0, 1, q-1}`).
#[derive(Clone, Debug)]
pub struct SecretKey {
    /// The secret polynomial `s`.
    pub poly: RnsPoly,
}

/// CKKS public key `(b, a)` with `b = -a*s + e`: an RLWE encryption of zero.
#[derive(Clone, Debug)]
pub struct PublicKey {
    /// `b = -a*s + e`.
    pub b: RnsPoly,
    /// `a`, uniformly random.
    pub a: RnsPoly,
}

/// Relinearization key: key-switching pairs for `s^2`, one per decomposition digit.
#[derive(Debug)]
pub struct RelinKey {
    /// Digit decomposition key-switching elements.
    pub digits: Vec<(RnsPoly, RnsPoly)>,
}

/// Galois key for the automorphism `x -> x^galois_elt`: switches from `s(x^k)` to `s(x)`.
#[derive(Debug)]
pub struct GaloisKey {
    /// The Galois element `k` (`5^step mod 2n` for a rotation by `step`).
    pub galois_elt: u64,
    /// The key-switching pair.
    pub ksk: (RnsPoly, RnsPoly),
}

impl Clone for RelinKey {
    /// A copy holding a clone of each key-switching pair, in order.
    fn clone(&self) -> (r: Self)
        ensures
            r.digits@.len() == self.digits@.len(),
    {
        let mut digits: Vec<(RnsPoly, RnsPoly)> = Vec::new();
        let mut i: usize = 0;
        while i < self.digits.len()
            invariant
                i <= self.digits@.len(),
                digits@.len() == i,
            decreases self.digits@.len() - i,
        {
            let pair = &self.digits[i];
            digits.push((pair.0.clone(), pair.1.clone()));
            i = i + 1;
        }
        RelinKey { digits }
    }
}

impl Clone for GaloisKey {
    /// A copy with the same Galois element and a clone of the pair.
    fn clone(&self) -> (r: Self)
        ensures
            r.galois_elt == self.galois_elt,
    {
        GaloisKey { galois_elt: self.galois_elt, ksk: (self.ksk.0.clone(), self.ksk.1.clone()) }
    }
}

/// All keys of one CKKS instance.
#[derive(Clone, Debug)]
pub struct KeySet {
    /// The secret key.
    pub secret_key: SecretKey,
    /// The public key.
    pub public_key: PublicKey,
    /// The relinearization key.
    pub relin_key: RelinKey,
    /// Galois keys by rotation step.
    pub galois_keys: HashMap<i32, GaloisKey>,
}

} // verus!
