//! The homomorphic evaluator's key store and the key generator's state.

use crate::ckks_error::{signed_decimal, CkksError};
use crate::keys::{GaloisKey, RelinKey};
use crate::params::CkksParams;
use std::collections::HashMap;
use std::sync::Arc;
use vstd::prelude::*;

verus! {

/// Evaluates homomorphic operations with the relinearization key and the
/// Galois keys of one parameter set.
pub struct CkksEvaluator {
    /// The shared parameters.
    pub params: Arc<CkksParams>,
    /// The relinearization key.
    pub rlk: RelinKey,
    /// Galois keys by rotation step.
    pub galois_keys: HashMap<i32, GaloisKey>,
}

/// The description of a missing Galois key for `step`.
pub open spec fn missing_galois_key_text(step: int) -> Seq<char> {
    "Galois key for step="@ + signed_decimal(step)
}

/// Formats the description of a missing Galois key with `format!`, which
/// writes a signed integer in decimal with a leading `-` when negative.
#[verifier::external_body]
fn missing_galois_key_message(step: i32) -> (r: String)
    ensures
        r@ == missing_galois_key_text(step as int),
{
    format!("Galois key for step={step}")
}

impl CkksEvaluator {
    /// An evaluator holding the given keys.
    pub fn new(
        params: Arc<CkksParams>,
        rlk: RelinKey,
        galois_keys: HashMap<i32, GaloisKey>,
    ) -> (r: Self)
        ensures
            r.params == params,
            r.rlk == rlk,
            r.galois_keys@ == galois_keys@,
    {
        CkksEvaluator { params, rlk, galois_keys }
    }

    /// The Galois key for a rotation by `step`; `KeyNotFound` when there is none.
    pub fn get_galois_key(&self, step: i32) -> (r: Result<&GaloisKey, CkksError>)
        ensures
            self.galois_keys@.contains_key(step) ==> (r matches Ok(k) && *k
                == self.galois_keys@[step]),
            !self.galois_keys@.contains_key(step) ==> (r matches Err(CkksError::KeyNotFound(msg))
                && msg@ == missing_galois_key_text(step as int)),
    {
        broadcast use vstd::std_specs::hash::group_hash_axioms;

        match self.galois_keys.get(&step) {
            Some(k) => Ok(k),
            None => Err(CkksError::KeyNotFound(missing_galois_key_message(step))),
        }
    }
}

/// Generates CKKS keys for one parameter set.
pub struct KeyGenerator {
    params: Arc<CkksParams>,
}

impl KeyGenerator {
    /// The parameters keys are generated for.
    pub closed spec fn params(&self) -> Arc<CkksParams> {
        self.params
    }

    /// A key generator for the given parameters.
    pub fn new(params: Arc<CkksParams>) -> (r: Self)
        ensures
            r.params() == params,
    {
        KeyGenerator { params }
    }
}

} // verus!
