//! Error type of the arithmetic layer.

use vstd::prelude::*;

verus! {

/// Failures of the arithmetic layer.
#[derive(Debug, Clone, Copy, PartialEq, Eq, Structural)]
pub enum MathError {
    /// The modulus must be prime.
    NotPrime(u64),
    /// The polynomial degree is not a power of two.
    DegreeNotPowerOfTwo(usize),
    /// The modulus admits no negacyclic NTT of this degree.
    NttUnsupported { modulus: u64, degree: usize },
    /// Two RNS operands use bases of different sizes.
    RnsBasisMismatch { expected: usize, got: usize },
    /// An index lies outside a sequence.
    IndexOutOfBounds { index: usize, len: usize },
}

} // verus!
