//! Parameters of the differential-testing oracle.

use vstd::prelude::*;

verus! {

/// Parameters sent to the oracle with each operation.
#[derive(Clone, Copy, Debug, PartialEq, Eq, Structural)]
pub struct OracleParams {
    /// Ring degree.
    pub poly_degree: usize,
    /// Bits of the encoding scale.
    pub scale_bits: u32,
    /// Multiplicative depth.
    pub depth: usize,
}

} // verus!
