//! Errors of the CKKS layer.

use crate::error::MathError;
use vstd::prelude::*;

verus! {

/// Errors raised by CKKS encoding, encryption and evaluation.
#[derive(Debug)]
pub enum CkksError {
    /// An error of the underlying arithmetic.
    Math(MathError),
    /// An encoding error.
    Encoding(String),
    /// Ciphertext levels differ.
    LevelMismatch { expected: usize, got: usize },
    /// An evaluation error.
    Eval(String),
    /// A required key is missing.
    KeyNotFound(String),
    /// Invalid parameters.
    Params(String),
}

/// The decimal digit character for `d < 10`.
pub open spec fn digit_char(d: nat) -> char {
    (48 + d) as char
}

/// The decimal notation of `n`, as `Display` writes an unsigned integer.
pub open spec fn decimal(n: nat) -> Seq<char>
    decreases n,
{
    if n < 10 {
        seq![digit_char(n)]
    } else {
        decimal(n / 10).push(digit_char(n % 10))
    }
}

/// The decimal notation of a signed integer, with a leading `-` when negative.
pub open spec fn signed_decimal(x: int) -> Seq<char> {
    if x < 0 {
        seq!['-'] + decimal((-x) as nat)
    } else {
        decimal(x as nat)
    }
}

} // verus!
