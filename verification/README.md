# fhe_ckks

The arithmetic core of an RNS-CKKS homomorphic-encryption toolkit, written in
Verus: every function in `src/` carries a contract that the verifier proves,
except the small `#[verifier::external_body]` wrappers around `petgraph`,
`concrete-ntt` and `format!` (in `src/ir_graph.rs`, `src/ntt_reference.rs`,
`src/eval.rs` and `src/evaluator.rs`), whose contracts are trusted: each one's
doc comment says what it claims of the outside code.

## Layout

- `src/modular.rs` — modular addition, subtraction, multiplication and
  exponentiation; Fermat and extended-Euclid inverses; Newton lifting modulo
  powers of two; Barrett and Montgomery reduction; prime factorization and
  primitive roots.
- `src/ntt.rs`, `src/ntt_build.rs`, `src/ntt_spec.rs`, `src/ntt_eval.rs` —
  negacyclic NTT plans: construction (roots of unity by Tonelli–Shanks, twiddle
  tables), the DIF forward and DIT inverse networks, and their mathematical
  model. Proved: the inverse undoes the forward transform and vice versa, and
  the forward transform evaluates the input polynomial at the odd powers of the
  `2n`-th root.
- `src/negacyclic.rs`, `src/sums.rs` — multiplication in `Z_q[x]/(x^n + 1)` and
  the proof that NTT, pointwise product and inverse NTT compute it.
- `src/poly.rs`, `src/rns.rs`, `src/rotate.rs` — single-modulus polynomials,
  their RNS form (limbwise arithmetic, rescaling by the last modulus, Garner CRT
  reconstruction) and Galois automorphisms.
- `src/bitrev.rs`, `src/slots.rs` — bit-reversal permutations.
- `src/ntt_reference.rs` — the `concrete-ntt` transform as a reference.
- `src/params.rs`, `src/keys.rs`, `src/evaluator.rs`, `src/eval.rs` — CKKS
  parameter sets, ciphertexts, plaintexts and keys (scales are held as the bit
  patterns of their `f64` encodings), the evaluator's key store, and
  homomorphic addition, subtraction and negation.
- `src/ir.rs`, `src/ir_graph.rs` — the FHE intermediate representation: typed
  operation nodes and the data-flow graph (a `petgraph` graph behind
  specified wrappers), with a builder whose graphs are acyclic by
  construction.
- `src/fermat.rs`, `src/number_theory.rs`, `src/arith.rs` — the number theory
  behind the proofs (Fermat's little theorem, Bezout, Euclid's lemma, CRT
  uniqueness).
- `src/residues.rs`, `src/generators.rs` — polynomials modulo a prime have no
  more roots than their degree; hence quadratic non-residues and primitive
  roots exist, Tonelli–Shanks always finds its square roots, and the root of
  unity search succeeds for every prime `q` with `2n | q - 1`.
- `app/` — error types with messages, serializable copies of the data types
  (with `f64` scales), the encoder's floating-point state, the IR pass
  manager, and the differential-testing harness that runs a Python oracle.
- `tests/` — unit tests of the library.
