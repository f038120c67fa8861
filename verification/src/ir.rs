//! Types and optimization passes of the FHE intermediate representation.

use vstd::prelude::*;

verus! {

/// The type of an IR value.
#[derive(Clone, Copy, Debug, PartialEq, Eq, Structural)]
pub enum IrType {
    /// An encrypted value.
    CiphertextTy,
    /// An unencrypted polynomial.
    PlaintextTy,
    /// A scalar constant.
    ScalarTy,
}

/// Dead-code elimination: removes nodes whose outputs are never used.
#[derive(Clone, Copy, Debug)]
pub struct DeadCodePass;

/// Level assignment: inputs start at `max_depth`; each rescale lowers the level by one.
#[derive(Clone, Copy, Debug)]
pub struct LevelAssignPass {
    /// Level of the inputs.
    pub max_depth: usize,
}

/// Rescale insertion: adds a rescale after each relinearized multiplication lacking one.
#[derive(Clone, Copy, Debug)]
pub struct RescaleInsertPass;

impl DeadCodePass {
    /// The pass's name.
    pub fn name(&self) -> (r: &'static str)
        ensures
            r@ == "dead_code"@,
    {
        "dead_code"
    }
}

impl LevelAssignPass {
    /// The pass's name.
    pub fn name(&self) -> (r: &'static str)
        ensures
            r@ == "level_assign"@,
    {
        "level_assign"
    }
}

impl RescaleInsertPass {
    /// The pass's name.
    pub fn name(&self) -> (r: &'static str)
        ensures
            r@ == "rescale_insert"@,
    {
        "rescale_insert"
    }
}

} // verus!
