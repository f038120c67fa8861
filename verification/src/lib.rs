//! Verified arithmetic core for RNS-CKKS homomorphic encryption.
//!
//! Modular arithmetic, number-theoretic transforms, polynomials over
//! `Z_q[x]/(x^n + 1)` and their residue-number-system form, CKKS parameter
//! sets, keys and ciphertext arithmetic, and the intermediate representation
//! of FHE programs.

pub mod arith;
pub mod bitrev;
pub mod ckks_error;
pub mod difftest;
pub mod encoding;
pub mod error;
pub mod eval;
pub mod evaluator;
pub mod fermat;
pub mod generators;
pub mod ir;
pub mod ir_graph;
pub mod keys;
pub mod modular;
pub mod negacyclic;
pub mod ntt;
pub mod ntt_build;
pub mod ntt_eval;
pub mod ntt_reference;
pub mod ntt_spec;
pub mod number_theory;
pub mod params;
pub mod poly;
pub mod residues;
pub mod rns;
pub mod rotate;
pub mod slots;
pub mod sums;

pub use error::MathError;
