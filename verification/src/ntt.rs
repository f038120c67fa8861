//! Negacyclic number-theoretic transform over `Z_q[x] / (x^n + 1)`.
//!
//! The forward transform pre-twists by powers of a primitive `2n`-th root `psi`
//! and runs a cyclic decimation-in-frequency network, leaving its output in
//! bit-reversed order; the inverse runs the matching decimation-in-time network,
//! scales by `n^{-1}` and untwists.

use crate::modular::{mod_add, mod_mul, mod_sub};
use crate::ntt_spec::{
    butterfly_done, dif_stage, dif_tables_ok, dit_stage, dit_tables_ok, fwd_from, inv_from,
    inverse_tables, lemma_butterfly_positions, lemma_fwd_after_inv, lemma_fwd_linear,
    lemma_fwd_shape, lemma_inv_after_fwd, lemma_inv_shape, lemma_scale_const_compose, reduced,
    scale_by, scale_const, tables_paired,
};
use vstd::arithmetic::power::pow;
use vstd::arithmetic::power2::pow2;
use vstd::arithmetic::div_mod::lemma_fundamental_div_mod;
pub use crate::ntt_build::primitive_root_of_unity;
use vstd::prelude::*;

verus! {

/// Logical ordering of samples in the transform domain.
#[derive(Clone, Copy, Debug, PartialEq, Eq, Structural)]
pub enum SpectralLayout {
    /// Indices match the mathematical frequency order directly.
    Natural,
    /// Indices are stored in bit-reversed order.
    BitReversed,
}

/// Precomputed twiddles for one iterative butterfly stage.
#[derive(Clone, Debug)]
pub struct StageTwiddles {
    /// Butterfly block length at this stage.
    pub len: usize,
    /// Twiddle powers used inside each butterfly block.
    pub twiddles: Vec<u64>,
}

/// A precomputed negacyclic NTT plan for a `(modulus, degree)` pair.
///
/// Forward: pre-twist by `psi^j`, then cyclic DIF, leaving bit-reversed output.
/// Inverse: cyclic DIT on bit-reversed input, scale by `n^{-1}`, untwist by `psi^{-j}`.
pub struct NttPlan {
    /// The modulus `q` (a prime with `q == 1 mod 2n` for a usable plan).
    pub modulus: u64,
    /// The transform length `n`, a power of two.
    pub degree: usize,
    /// Primitive `n`-th root `omega = psi^2`.
    pub root: u64,
    /// Inverse of `omega`.
    pub root_inv: u64,
    /// Inverse of `degree` modulo `q`.
    pub inv_degree: u64,
    /// Powers `psi^j` for the forward twist.
    pub psi_powers: Vec<u64>,
    /// Powers `psi^{-j}` for the inverse untwist.
    pub psi_inv_powers: Vec<u64>,
    /// DIF stage tables for the forward transform (block lengths `n, n/2, ..., 2`).
    pub dif_stages: Vec<StageTwiddles>,
    /// DIT stage tables for the inverse transform (block lengths `2, 4, ..., n`).
    pub dit_stages: Vec<StageTwiddles>,
}

impl NttPlan {
    /// Number of butterfly layers, `log2(degree)`.
    pub open spec fn layers(&self) -> nat {
        self.dif_stages.len() as nat
    }

    /// Twiddle tables of the forward stages.
    pub open spec fn dif_tws(&self) -> Seq<Seq<u64>> {
        Seq::new(self.dif_stages.len() as nat, |l: int| self.dif_stages[l].twiddles@)
    }

    /// Twiddle tables of the inverse stages.
    pub open spec fn dit_tws(&self) -> Seq<Seq<u64>> {
        Seq::new(self.dit_stages.len() as nat, |l: int| self.dit_stages[l].twiddles@)
    }

    /// The tables have the shapes and values of a plan built for `modulus` and `degree`.
    pub open spec fn wf(&self) -> bool {
        let q = self.modulus as int;
        let n = self.degree as nat;
        let layers = self.layers();
        &&& q >= 2
        &&& n == pow2(layers)
        &&& self.dit_stages.len() == layers
        &&& self.psi_powers.len() == n
        &&& self.psi_inv_powers.len() == n
        &&& reduced(self.psi_powers@, q)
        &&& reduced(self.psi_inv_powers@, q)
        &&& self.root < q
        &&& self.root_inv < q
        &&& self.inv_degree < q
        &&& forall|l: int|
            0 <= l < layers ==> {
                let st = #[trigger] self.dif_stages[l];
                &&& st.len == n / pow2(l as nat)
                &&& st.twiddles.len() == n / pow2((l + 1) as nat)
                &&& forall|i: int|
                    0 <= i < st.twiddles.len() ==> #[trigger] st.twiddles[i] == pow(
                        self.root as int,
                        (i * pow2(l as nat)) as nat,
                    ) % q
            }
        &&& forall|l: int|
            0 <= l < layers ==> {
                let st = #[trigger] self.dit_stages[l];
                &&& st.len == pow2((l + 1) as nat)
                &&& st.twiddles.len() == pow2(l as nat)
                &&& forall|i: int|
                    0 <= i < st.twiddles.len() ==> #[trigger] st.twiddles[i] == pow(
                        self.root_inv as int,
                        (i * pow2((layers - 1 - l) as nat)) as nat,
                    ) % q
            }
    }

    /// The forward transform as a function of the input coefficients.
    pub open spec fn forward_spec(&self, x: Seq<u64>) -> Seq<u64> {
        let q = self.modulus as int;
        fwd_from(
            scale_by(x, self.psi_powers@, q),
            0,
            self.layers(),
            self.degree as nat,
            self.dif_tws(),
            q,
        )
    }

    /// The inverse transform as a function of the bit-reversed spectrum.
    pub open spec fn inverse_spec(&self, y: Seq<u64>) -> Seq<u64> {
        let q = self.modulus as int;
        scale_by(
            scale_const(
                inv_from(y, 0, self.layers(), self.degree as nat, self.dit_tws(), q),
                self.inv_degree as int,
                q,
            ),
            self.psi_inv_powers@,
            q,
        )
    }
}

/// Apply one decimation-in-frequency butterfly stage with blocks of length `len`.
fn dif_layer(data: &mut [u64], len: usize, twiddles: &Vec<u64>, q: u64)
    requires
        len >= 2,
        len % 2 == 0,
        (old(data)@.len() as int) % (len as int) == 0,
        twiddles@.len() == len / 2,
        reduced(old(data)@, q as int),
        reduced(twiddles@, q as int),
    ensures
        final(data)@ == dif_stage(old(data)@, len as nat, twiddles@, q as int),
        reduced(final(data)@, q as int),
{
    let ghost before = data@;
    let ghost target = dif_stage(before, len as nat, twiddles@, q as int);
    let n = data.len();
    let half = len / 2;
    let groups = n / len;
    proof {
        lemma_fundamental_div_mod(n as int, len as int);
        assert(len * groups == groups * len) by (nonlinear_arith);
    }
    let mut group = 0usize;
    while group < groups
        invariant
            data@.len() == before.len() == n,
            n == groups * len,
            len >= 2,
            len % 2 == 0,
            half == len / 2,
            twiddles@.len() == half,
            reduced(before, q as int),
            reduced(twiddles@, q as int),
            target == dif_stage(before, len as nat, twiddles@, q as int),
            group <= groups,
            forall|k: int|
                0 <= k < n ==> #[trigger] data@[k] == if butterfly_done(
                    k,
                    len as int,
                    group as int,
                    0,
                ) {
                    target[k]
                } else {
                    before[k]
                },
        decreases groups - group,
    {
        proof {
            assert(group * len + len <= groups * len) by (nonlinear_arith)
                requires
                    group < groups,
                    len >= 0,
            ;
        }
        let base = group * len;
        let mut i = 0usize;
        while i < half
            invariant
                data@.len() == before.len() == n,
                n == groups * len,
                len >= 2,
                len % 2 == 0,
                half == len / 2,
                twiddles@.len() == half,
                reduced(before, q as int),
                reduced(twiddles@, q as int),
                target == dif_stage(before, len as nat, twiddles@, q as int),
                group < groups,
                base == group * len,
                base + len <= n,
                i <= half,
                forall|k: int|
                    0 <= k < n ==> #[trigger] data@[k] == if butterfly_done(
                        k,
                        len as int,
                        group as int,
                        i as int,
                    ) {
                        target[k]
                    } else {
                        before[k]
                    },
            decreases half - i,
        {
            proof {
                lemma_butterfly_positions(base as int + i as int, len as int, group as int, i as int);
                lemma_butterfly_positions(base as int + i as int + half as int, len as int, group as int, i as int);
                assert(!butterfly_done(base as int + i as int, len as int, group as int, i as int));
                assert(!butterfly_done(base as int + i as int + half as int, len as int, group as int, i as int));
            }
            let cur = data[base + i];
            let cur_stride = data[base + i + half];
            data[base + i] = mod_add(cur, cur_stride, q);
            let sub_ = mod_sub(cur, cur_stride, q);
            data[base + i + half] = mod_mul(sub_, twiddles[i], q);
            proof {
                assert forall|k: int| 0 <= k < n implies #[trigger] data@[k] == if butterfly_done(
                    k,
                    len as int,
                    group as int,
                    i + 1,
                ) {
                    target[k]
                } else {
                    before[k]
                } by {
                    lemma_butterfly_positions(k, len as int, group as int, i as int);
                    lemma_butterfly_positions(base as int + i as int, len as int, group as int, i as int);
                }
            }
            i += 1;
        }
        proof {
            assert forall|k: int| 0 <= k < n implies #[trigger] data@[k] == if butterfly_done(
                k,
                len as int,
                group + 1,
                0,
            ) {
                target[k]
            } else {
                before[k]
            } by {
                lemma_butterfly_positions(k, len as int, group as int, 0);
            }
        }
        group += 1;
    }
    proof {
        assert forall|k: int| 0 <= k < n implies #[trigger] data@[k] == target[k] by {
            lemma_fundamental_div_mod(k, len as int);
            crate::arith::lemma_mod_range(k, len as int);
            assert(k / (len as int) < groups) by (nonlinear_arith)
                requires
                    k == len * (k / (len as int)) + k % (len as int),
                    k % (len as int) >= 0,
                    k < n,
                    n == groups * len,
                    len > 0,
            ;
        }
        assert(data@ =~= target);
        assert forall|k: int| 0 <= k < n implies #[trigger] target[k] < q by {
            crate::arith::lemma_mod_range(k, len as int);
        }
    }
}

/// Apply one decimation-in-time butterfly stage with blocks of length `len`.
fn dit_layer(data: &mut [u64], len: usize, twiddles: &Vec<u64>, q: u64)
    requires
        len >= 2,
        len % 2 == 0,
        (old(data)@.len() as int) % (len as int) == 0,
        twiddles@.len() == len / 2,
        reduced(old(data)@, q as int),
        reduced(twiddles@, q as int),
    ensures
        final(data)@ == dit_stage(old(data)@, len as nat, twiddles@, q as int),
        reduced(final(data)@, q as int),
{
    let ghost before = data@;
    let ghost target = dit_stage(before, len as nat, twiddles@, q as int);
    let n = data.len();
    let half = len / 2;
    let groups = n / len;
    proof {
        lemma_fundamental_div_mod(n as int, len as int);
        assert(len * groups == groups * len) by (nonlinear_arith);
    }
    let mut group = 0usize;
    while group < groups
        invariant
            data@.len() == before.len() == n,
            n == groups * len,
            len >= 2,
            len % 2 == 0,
            half == len / 2,
            twiddles@.len() == half,
            reduced(before, q as int),
            reduced(twiddles@, q as int),
            target == dit_stage(before, len as nat, twiddles@, q as int),
            group <= groups,
            forall|k: int|
                0 <= k < n ==> #[trigger] data@[k] == if butterfly_done(
                    k,
                    len as int,
                    group as int,
                    0,
                ) {
                    target[k]
                } else {
                    before[k]
                },
        decreases groups - group,
    {
        proof {
            assert(group * len + len <= groups * len) by (nonlinear_arith)
                requires
                    group < groups,
                    len >= 0,
            ;
        }
        let base = group * len;
        let mut i = 0usize;
        while i < half
            invariant
                data@.len() == before.len() == n,
                n == groups * len,
                len >= 2,
                len % 2 == 0,
                half == len / 2,
                twiddles@.len() == half,
                reduced(before, q as int),
                reduced(twiddles@, q as int),
                target == dit_stage(before, len as nat, twiddles@, q as int),
                group < groups,
                base == group * len,
                base + len <= n,
                i <= half,
                forall|k: int|
                    0 <= k < n ==> #[trigger] data@[k] == if butterfly_done(
                        k,
                        len as int,
                        group as int,
                        i as int,
                    ) {
                        target[k]
                    } else {
                        before[k]
                    },
            decreases half - i,
        {
            proof {
                lemma_butterfly_positions(base as int + i as int, len as int, group as int, i as int);
                lemma_butterfly_positions(base as int + i as int + half as int, len as int, group as int, i as int);
                assert(!butterfly_done(base as int + i as int, len as int, group as int, i as int));
                assert(!butterfly_done(base as int + i as int + half as int, len as int, group as int, i as int));
            }
            let cur = data[base + i];
            let cur_stride = data[base + i + half];
            let mul_ = mod_mul(cur_stride, twiddles[i], q);
            data[base + i] = mod_add(cur, mul_, q);
            data[base + i + half] = mod_sub(cur, mul_, q);
            proof {
                assert forall|k: int| 0 <= k < n implies #[trigger] data@[k] == if butterfly_done(
                    k,
                    len as int,
                    group as int,
                    i + 1,
                ) {
                    target[k]
                } else {
                    before[k]
                } by {
                    lemma_butterfly_positions(k, len as int, group as int, i as int);
                    lemma_butterfly_positions(base as int + i as int, len as int, group as int, i as int);
                }
            }
            i += 1;
        }
        proof {
            assert forall|k: int| 0 <= k < n implies #[trigger] data@[k] == if butterfly_done(
                k,
                len as int,
                group + 1,
                0,
            ) {
                target[k]
            } else {
                before[k]
            } by {
                lemma_butterfly_positions(k, len as int, group as int, 0);
            }
        }
        group += 1;
    }
    proof {
        assert forall|k: int| 0 <= k < n implies #[trigger] data@[k] == target[k] by {
            lemma_fundamental_div_mod(k, len as int);
            crate::arith::lemma_mod_range(k, len as int);
            assert(k / (len as int) < groups) by (nonlinear_arith)
                requires
                    k == len * (k / (len as int)) + k % (len as int),
                    k % (len as int) >= 0,
                    k < n,
                    n == groups * len,
                    len > 0,
            ;
        }
        assert(data@ =~= target);
        assert forall|k: int| 0 <= k < n implies #[trigger] target[k] < q by {
            crate::arith::lemma_mod_range(k, len as int);
        }
    }
}

impl NttPlan {
    /// The output layout produced by the forward transform.
    pub fn forward_output_spectral_layout(&self) -> (r: SpectralLayout)
        ensures
            r == SpectralLayout::BitReversed,
    {
        SpectralLayout::BitReversed
    }

    /// The input layout expected by the inverse transform.
    pub fn inverse_input_spectral_layout(&self) -> (r: SpectralLayout)
        ensures
            r == SpectralLayout::BitReversed,
    {
        SpectralLayout::BitReversed
    }

    /// The forward DIF network alone, without the twist: output in bit-reversed order.
    pub fn forward_core_dif(&self, data: &mut [u64])
        requires
            self.wf(),
            old(data)@.len() == self.degree,
            reduced(old(data)@, self.modulus as int),
        ensures
            final(data)@ == fwd_from(
                old(data)@,
                0,
                self.layers(),
                self.degree as nat,
                self.dif_tws(),
                self.modulus as int,
            ),
            reduced(final(data)@, self.modulus as int),
            final(data)@.len() == old(data)@.len(),
    {
        let ghost q = self.modulus as int;
        let ghost n = self.degree as nat;
        let ghost target = fwd_from(data@, 0, self.layers(), n, self.dif_tws(), q);
        let layer_num = self.dif_stages.len();
        let mut len = data.len();
        let mut layer = 0usize;
        proof {
            vstd::arithmetic::power2::lemma2_to64();
        }
        while layer < layer_num
            invariant
                self.wf(),
                layer <= layer_num == self.layers(),
                data@.len() == n,
                n == self.degree,
                q == self.modulus,
                len == n / pow2(layer as nat),
                reduced(data@, q),
                fwd_from(data@, layer as nat, self.layers(), n, self.dif_tws(), q) == target,
            decreases layer_num - layer,
        {
            let stage = &self.dif_stages[layer];
            proof {
                crate::arith::lemma_stage_len(self.layers(), layer as nat);
                assert(stage.twiddles@ == self.dif_tws()[layer as int]);
                assert(reduced(stage.twiddles@, q)) by {
                    assert forall|i: int| 0 <= i < stage.twiddles@.len() implies #[trigger] stage.twiddles@[i] < q by {
                        crate::arith::lemma_mod_range(pow(self.root as int, (i * pow2(layer as nat)) as nat), q);
                    }
                }
            }
            dif_layer(data, len, &stage.twiddles, self.modulus);
            len = len / 2;
            layer += 1;
        }
    }

    /// The inverse DIT network alone, without scaling or untwisting.
    pub fn inverse_core_dit(&self, data: &mut [u64])
        requires
            self.wf(),
            old(data)@.len() == self.degree,
            reduced(old(data)@, self.modulus as int),
        ensures
            final(data)@ == inv_from(
                old(data)@,
                0,
                self.layers(),
                self.degree as nat,
                self.dit_tws(),
                self.modulus as int,
            ),
            reduced(final(data)@, self.modulus as int),
            final(data)@.len() == old(data)@.len(),
    {
        let ghost q = self.modulus as int;
        let ghost n = self.degree as nat;
        let ghost y = data@;
        let layer_num = self.dit_stages.len();
        let mut group_len = 2usize;
        let mut layer = 0usize;
        proof {
            vstd::arithmetic::power2::lemma2_to64();
        }
        while layer < layer_num
            invariant
                self.wf(),
                layer <= layer_num == self.layers(),
                data@.len() == n,
                n == self.degree,
                q == self.modulus,
                layer < layer_num ==> group_len == pow2((layer + 1) as nat),
                reduced(data@, q),
                data@ == inv_from(y, (layer_num - layer) as nat, self.layers(), n, self.dit_tws(), q),
            decreases layer_num - layer,
        {
            let stage = &self.dit_stages[layer];
            let ghost s = (layer_num - 1 - layer) as nat;
            proof {
                crate::arith::lemma_stage_len(self.layers(), s);
                assert(stage.twiddles@ == self.dit_tws()[layer as int]);
                assert((self.layers() - 1 - s) as int == layer as int);
                assert((self.layers() - s) as nat == (layer + 1) as nat);
                assert(reduced(stage.twiddles@, q)) by {
                    assert forall|i: int| 0 <= i < stage.twiddles@.len() implies #[trigger] stage.twiddles@[i] < q by {
                        crate::arith::lemma_mod_range(pow(self.root_inv as int, (i * pow2((self.layers() - 1 - layer) as nat)) as nat), q);
                    }
                }
                assert(group_len == n / pow2(s));
            }
            dit_layer(data, group_len, &stage.twiddles, self.modulus);
            proof {
                if layer + 1 < layer_num {
                    vstd::arithmetic::power2::lemma_pow2_unfold((layer + 2) as nat);
                    assert(pow2((layer + 2) as nat) <= n) by {
                        vstd::arithmetic::power2::lemma_pow2_subtracts((layer + 2) as nat, self.layers());
                        crate::arith::lemma_stage_len(self.layers(), (s - 1) as nat);
                    }
                }
            }
            if layer + 1 < layer_num {
                group_len = group_len * 2;
            }
            layer += 1;
        }
    }
}

/// Multiply `data` elementwise by `factors` modulo `q`, in place.
fn scale_in_place(data: &mut [u64], factors: &Vec<u64>, q: u64)
    requires
        q > 0,
        factors@.len() == old(data)@.len(),
    ensures
        final(data)@ == scale_by(old(data)@, factors@, q as int),
        reduced(final(data)@, q as int),
{
    let ghost before = data@;
    let n = data.len();
    let mut i = 0usize;
    while i < n
        invariant
            q > 0,
            n == data@.len() == before.len() == factors@.len(),
            i <= n,
            forall|k: int| 0 <= k < i ==> #[trigger] data@[k] == scale_by(before, factors@, q as int)[k],
            forall|k: int| i <= k < n ==> #[trigger] data@[k] == before[k],
            forall|k: int| 0 <= k < i ==> #[trigger] data@[k] < q,
        decreases n - i,
    {
        data[i] = mod_mul(data[i], factors[i], q);
        i += 1;
    }
    proof {
        assert(data@ =~= scale_by(before, factors@, q as int));
    }
}

/// Multiply every entry of `data` by `c` modulo `q`, in place.
fn scale_const_in_place(data: &mut [u64], c: u64, q: u64)
    requires
        q > 0,
    ensures
        final(data)@ == scale_const(old(data)@, c as int, q as int),
        reduced(final(data)@, q as int),
{
    let ghost before = data@;
    let n = data.len();
    let mut i = 0usize;
    while i < n
        invariant
            q > 0,
            n == data@.len() == before.len(),
            i <= n,
            forall|k: int| 0 <= k < i ==> #[trigger] data@[k] == scale_const(before, c as int, q as int)[k],
            forall|k: int| i <= k < n ==> #[trigger] data@[k] == before[k],
            forall|k: int| 0 <= k < i ==> #[trigger] data@[k] < q,
        decreases n - i,
    {
        data[i] = mod_mul(data[i], c, q);
        i += 1;
    }
    proof {
        assert(data@ =~= scale_const(before, c as int, q as int));
    }
}

impl NttPlan {
    fn apply_forward_twist(&self, data: &mut [u64])
        requires
            self.wf(),
            old(data)@.len() == self.degree,
        ensures
            final(data)@ == scale_by(old(data)@, self.psi_powers@, self.modulus as int),
            reduced(final(data)@, self.modulus as int),
    {
        scale_in_place(data, &self.psi_powers, self.modulus);
    }

    fn apply_inverse_normalization(&self, data: &mut [u64])
        requires
            self.wf(),
        ensures
            final(data)@ == scale_const(old(data)@, self.inv_degree as int, self.modulus as int),
            reduced(final(data)@, self.modulus as int),
    {
        scale_const_in_place(data, self.inv_degree, self.modulus);
    }

    fn apply_inverse_untwist(&self, data: &mut [u64])
        requires
            self.wf(),
            old(data)@.len() == self.degree,
        ensures
            final(data)@ == scale_by(old(data)@, self.psi_inv_powers@, self.modulus as int),
            reduced(final(data)@, self.modulus as int),
    {
        scale_in_place(data, &self.psi_inv_powers, self.modulus);
    }

    /// In-place forward negacyclic NTT: twist by `psi^j`, then the DIF network.
    /// The output is in bit-reversed order.
    pub fn forward_to_bitrev(&self, data: &mut [u64])
        requires
            self.wf(),
            old(data)@.len() == self.degree,
        ensures
            final(data)@ == self.forward_spec(old(data)@),
            reduced(final(data)@, self.modulus as int),
            final(data)@.len() == old(data)@.len(),
    {
        self.apply_forward_twist(data);
        self.forward_core_dif(data);
    }

    /// In-place inverse negacyclic NTT of bit-reversed spectral data: the DIT
    /// network, then scaling by `n^{-1}` and untwisting by `psi^{-j}`.
    pub fn inverse_from_bitrev(&self, data: &mut [u64])
        requires
            self.wf(),
            old(data)@.len() == self.degree,
            reduced(old(data)@, self.modulus as int),
        ensures
            final(data)@ == self.inverse_spec(old(data)@),
            reduced(final(data)@, self.modulus as int),
            final(data)@.len() == old(data)@.len(),
    {
        self.inverse_core_dit(data);
        self.apply_inverse_normalization(data);
        self.apply_inverse_untwist(data);
    }

    /// Elementwise product of two spectra in the same layout: `a[i] = a[i] * b[i] mod q`.
    pub fn pointwise_mul(&self, a: &mut [u64], b: &[u64])
        requires
            self.wf(),
            old(a)@.len() == self.degree,
            b@.len() == self.degree,
        ensures
            final(a)@ == scale_by(old(a)@, b@, self.modulus as int),
            reduced(final(a)@, self.modulus as int),
    {
        let ghost before = a@;
        let n = a.len();
        let mut i = 0usize;
        while i < n
            invariant
                self.modulus >= 2,
                n == a@.len() == before.len() == b@.len(),
                i <= n,
                forall|k: int| 0 <= k < i ==> #[trigger] a@[k] == scale_by(before, b@, self.modulus as int)[k],
                forall|k: int| i <= k < n ==> #[trigger] a@[k] == before[k],
                forall|k: int| 0 <= k < i ==> #[trigger] a@[k] < self.modulus,
            decreases n - i,
        {
            a[i] = mod_mul(a[i], b[i], self.modulus);
            i += 1;
        }
        proof {
            assert(a@ =~= scale_by(before, b@, self.modulus as int));
        }
    }
}


impl NttPlan {
    /// The inverse-side values of the plan invert the forward-side ones modulo `q`:
    /// `root * root_inv == 1`, `inv_degree * degree == 1` and `psi^j * psi^{-j} == 1`.
    pub open spec fn invertible(&self) -> bool {
        &&& self.twists_invertible()
        &&& (self.inv_degree as int * self.degree as int) % (self.modulus as int) == 1
    }

    /// `root * root_inv == 1` and `psi^j * psi^{-j} == 1` modulo `q`.
    pub open spec fn twists_invertible(&self) -> bool {
        let q = self.modulus as int;
        &&& (self.root as int * self.root_inv as int) % q == 1
        &&& forall|k: int|
            0 <= k < self.degree ==> (#[trigger] self.psi_powers@[k] as int
                * self.psi_inv_powers@[k] as int) % q == 1
    }
}

/// The stage tables of a well-formed, invertible plan have the shapes the
/// network lemmas ask for, and each forward table is inverse to its partner.
proof fn lemma_plan_tables(plan: &NttPlan)
    requires
        plan.wf(),
        plan.invertible(),
    ensures
        dif_tables_ok(plan.layers(), plan.degree as nat, plan.dif_tws()),
        dit_tables_ok(plan.layers(), plan.degree as nat, plan.dit_tws()),
        tables_paired(plan.layers(), plan.dif_tws(), plan.dit_tws(), plan.modulus as int),
        crate::ntt_spec::modulus_ok(plan.modulus as int),
{
    lemma_plan_tables_paired(plan);
}

/// Table shapes and pairing from the plan invariant and `root * root_inv == 1`.
proof fn lemma_plan_tables_paired(plan: &NttPlan)
    requires
        plan.wf(),
        (plan.root as int * plan.root_inv as int) % (plan.modulus as int) == 1,
    ensures
        dif_tables_ok(plan.layers(), plan.degree as nat, plan.dif_tws()),
        dit_tables_ok(plan.layers(), plan.degree as nat, plan.dit_tws()),
        tables_paired(plan.layers(), plan.dif_tws(), plan.dit_tws(), plan.modulus as int),
        crate::ntt_spec::modulus_ok(plan.modulus as int),
{
    let q = plan.modulus as int;
    let layers = plan.layers();
    let n = plan.degree as nat;
    assert forall|t: int| 0 <= t < layers implies (#[trigger] plan.dif_tws()[t]).len() == n / pow2((t + 1) as nat) by {
        assert(plan.dif_tws()[t] == plan.dif_stages[t].twiddles@);
    }
    assert forall|t: int| 0 <= t < layers implies (#[trigger] plan.dit_tws()[t]).len() == pow2(t as nat) by {
        assert(plan.dit_tws()[t] == plan.dit_stages[t].twiddles@);
    }
    assert forall|s: int| 0 <= s < layers implies inverse_tables(#[trigger] plan.dif_tws()[s], plan.dit_tws()[layers - 1 - s], q) by {
        let t = layers - 1 - s;
        let tw = plan.dif_stages[s].twiddles@;
        let twi = plan.dit_stages[t].twiddles@;
        assert(plan.dif_tws()[s] == tw);
        assert(plan.dit_tws()[t] == twi);
        crate::arith::lemma_stage_len(layers, s as nat);
        assert((layers - 1 - t) as nat == s as nat);
        assert forall|i: int| 0 <= i < tw.len() implies (#[trigger] tw[i] * twi[i]) % q == 1 by {
            let e = (i * pow2(s as nat)) as nat;
            assert(tw[i] == pow(plan.root as int, e) % q);
            assert(twi[i] == pow(plan.root_inv as int, (i * pow2((layers - 1 - t) as nat)) as nat) % q);
            crate::arith::lemma_pow_inverse(plan.root as int, plan.root_inv as int, e, q);
        }
    }
}

/// Inverse transform undoes the forward transform: for every coefficient vector
/// `x` of residues, `inverse(forward(x)) == x` on a well-formed, invertible plan.
pub proof fn lemma_inverse_undoes_forward(plan: &NttPlan, x: Seq<u64>)
    requires
        plan.wf(),
        plan.invertible(),
        x.len() == plan.degree,
        reduced(x, plan.modulus as int),
    ensures
        plan.inverse_spec(plan.forward_spec(x)) == x,
{
    let q = plan.modulus as int;
    let n = plan.degree as nat;
    let layers = plan.layers();
    lemma_plan_tables(plan);
    let z = scale_by(x, plan.psi_powers@, q);
    assert(reduced(z, q)) by {
        assert forall|k: int| 0 <= k < z.len() implies #[trigger] z[k] < q by {
            crate::arith::lemma_mod_range(x[k] * plan.psi_powers@[k], q);
        }
    }
    lemma_fwd_shape(z, 0, layers, n, plan.dif_tws(), q);
    lemma_inv_after_fwd(z, 0, layers, n, plan.dif_tws(), plan.dit_tws(), q);
    lemma_scale_const_compose(z, n as int, plan.inv_degree as int, q);
    let m = n as int * plan.inv_degree as int;
    let v = scale_const(z, m, q);
    assert forall|k: int| 0 <= k < x.len() implies #[trigger] scale_by(v, plan.psi_inv_powers@, q)[k] == x[k] by {
        let p = plan.psi_powers@[k] as int;
        let pi = plan.psi_inv_powers@[k] as int;
        crate::ntt_spec::lemma_cast_mod(x[k] * p, q);
        crate::ntt_spec::lemma_cast_mod(((x[k] * p) % q) * m, q);
        crate::ntt_spec::lemma_cast_mod(((((x[k] * p) % q) * m) % q) * pi, q);
        assert(m % q == 1) by {
            assert(m == plan.inv_degree as int * n as int) by (nonlinear_arith)
                requires m == n as int * plan.inv_degree as int;
        }
        crate::arith::lemma_mod_mul_both(x[k] * p, m, q);
        crate::arith::lemma_mod_unit((x[k] * p) % q, m, q);
        crate::arith::lemma_mod_mul_cancel(x[k] as int, p, pi, q);
    }
    assert(scale_by(v, plan.psi_inv_powers@, q) =~= x);
}

/// Forward transform undoes the inverse transform: for every bit-reversed
/// spectrum `y` of residues, `forward(inverse(y)) == y` on a well-formed,
/// invertible plan.
pub proof fn lemma_forward_undoes_inverse(plan: &NttPlan, y: Seq<u64>)
    requires
        plan.wf(),
        plan.invertible(),
        y.len() == plan.degree,
        reduced(y, plan.modulus as int),
    ensures
        plan.forward_spec(plan.inverse_spec(y)) == y,
{
    let q = plan.modulus as int;
    let n = plan.degree as nat;
    let layers = plan.layers();
    lemma_plan_tables(plan);
    let w = inv_from(y, 0, layers, n, plan.dit_tws(), q);
    lemma_inv_shape(y, 0, layers, n, plan.dit_tws(), q);
    let v = scale_const(w, plan.inv_degree as int, q);
    let u = scale_by(v, plan.psi_inv_powers@, q);
    assert(scale_by(u, plan.psi_powers@, q) =~= v) by {
        assert forall|k: int| 0 <= k < v.len() implies #[trigger] scale_by(u, plan.psi_powers@, q)[k] == v[k] by {
            let p = plan.psi_powers@[k] as int;
            let pi = plan.psi_inv_powers@[k] as int;
            crate::ntt_spec::lemma_cast_mod(w[k] * plan.inv_degree, q);
            crate::ntt_spec::lemma_cast_mod(v[k] * pi, q);
            assert((pi * p) % q == 1) by {
                assert(pi * p == p * pi) by (nonlinear_arith);
            }
            crate::arith::lemma_mod_mul_cancel(v[k] as int, pi, p, q);
        }
    }
    lemma_fwd_linear(w, 0, layers, n, plan.dif_tws(), plan.inv_degree as int, q);
    lemma_fwd_after_inv(y, 0, layers, n, plan.dif_tws(), plan.dit_tws(), q);
    lemma_scale_const_compose(y, n as int, plan.inv_degree as int, q);
    let m = n as int * plan.inv_degree as int;
    assert(scale_const(y, m, q) =~= y) by {
        assert forall|k: int| 0 <= k < y.len() implies #[trigger] scale_const(y, m, q)[k] == y[k] by {
            assert(m % q == 1) by {
                assert(m == plan.inv_degree as int * n as int) by (nonlinear_arith)
                    requires m == n as int * plan.inv_degree as int;
            }
            crate::arith::lemma_mod_unit(y[k] as int, m, q);
        }
    }
}

impl NttPlan {
    /// Reorder a power-of-two-length vector in place by bit reversal of its indices.
    pub fn bit_reverse_in_place(data: &mut [u64])
        requires
            old(data)@.len() <= 1 || crate::arith::is_pow2(old(data)@.len() as nat),
        ensures
            final(data)@ == crate::bitrev::bit_reverse_seq(old(data)@),
    {
        crate::bitrev::bit_reverse_permute(data);
    }
}

/// The bare networks undo each other up to the factor `n`: running the inverse
/// DIT network after the forward DIF network multiplies every residue by the
/// degree, on a well-formed plan whose `root_inv` inverts `root`.
pub proof fn lemma_core_roundtrip(plan: &NttPlan, x: Seq<u64>)
    requires
        plan.wf(),
        (plan.root as int * plan.root_inv as int) % (plan.modulus as int) == 1,
        x.len() == plan.degree,
        reduced(x, plan.modulus as int),
    ensures
        inv_from(
            fwd_from(x, 0, plan.layers(), plan.degree as nat, plan.dif_tws(), plan.modulus as int),
            0,
            plan.layers(),
            plan.degree as nat,
            plan.dit_tws(),
            plan.modulus as int,
        ) == scale_const(x, plan.degree as int, plan.modulus as int),
{
    lemma_plan_tables_paired(plan);
    lemma_inv_after_fwd(x, 0, plan.layers(), plan.degree as nat, plan.dif_tws(), plan.dit_tws(), plan.modulus as int);
}

/// The stage tables of a well-formed plan have the shapes the network lemmas
/// ask for, and its modulus fits a `u64`.
pub proof fn lemma_plan_tables_pub(plan: &NttPlan)
    requires
        plan.wf(),
    ensures
        dif_tables_ok(plan.layers(), plan.degree as nat, plan.dif_tws()),
        dit_tables_ok(plan.layers(), plan.degree as nat, plan.dit_tws()),
        crate::ntt_spec::modulus_ok(plan.modulus as int),
{
    let layers = plan.layers();
    let n = plan.degree as nat;
    assert forall|t: int| 0 <= t < layers implies (#[trigger] plan.dif_tws()[t]).len() == n / pow2((t + 1) as nat) by {
        assert(plan.dif_tws()[t] == plan.dif_stages[t].twiddles@);
    }
    assert forall|t: int| 0 <= t < layers implies (#[trigger] plan.dit_tws()[t]).len() == pow2(t as nat) by {
        assert(plan.dit_tws()[t] == plan.dit_stages[t].twiddles@);
    }
}
} // verus!
