//! Mathematical model of the iterative negacyclic NTT: butterfly stages,
//! their composition, and the facts that make the transform invertible.

use crate::arith::{
    lemma_mod_add_both, lemma_mod_mul_both, lemma_mod_range, lemma_mod_small, lemma_mod_sub_both,
};
use vstd::arithmetic::div_mod::{lemma_fundamental_div_mod, lemma_fundamental_div_mod_converse};
use vstd::arithmetic::power2::pow2;
use vstd::prelude::*;

verus! {

/// Every entry of `x` is a residue modulo `q`.
pub open spec fn reduced(x: Seq<u64>, q: int) -> bool {
    forall|k: int| 0 <= k < x.len() ==> #[trigger] x[k] < q
}

/// One decimation-in-frequency butterfly stage on blocks of length `len`:
/// `(a, b) -> (a + b, (a - b) * w_i)` for the pair at offsets `i` and `i + len/2`.
pub open spec fn dif_stage(x: Seq<u64>, len: nat, tw: Seq<u64>, q: int) -> Seq<u64> {
    Seq::new(
        x.len(),
        |k: int|
            {
                let half = (len / 2) as int;
                let i = k % (len as int);
                if i < half {
                    ((x[k] + x[k + half]) % q) as u64
                } else {
                    ((((x[k - half] - x[k]) % q) * tw[i - half]) % q) as u64
                }
            },
    )
}

/// One decimation-in-time butterfly stage on blocks of length `len`:
/// `(a, b) -> (a + b * w_i, a - b * w_i)`.
pub open spec fn dit_stage(x: Seq<u64>, len: nat, tw: Seq<u64>, q: int) -> Seq<u64> {
    Seq::new(
        x.len(),
        |k: int|
            {
                let half = (len / 2) as int;
                let i = k % (len as int);
                if i < half {
                    ((x[k] + (x[k + half] * tw[i]) % q) % q) as u64
                } else {
                    ((x[k - half] - (x[k] * tw[i - half]) % q) % q) as u64
                }
            },
    )
}

/// Elementwise product with a table of factors, reduced modulo `q`.
pub open spec fn scale_by(x: Seq<u64>, f: Seq<u64>, q: int) -> Seq<u64> {
    Seq::new(x.len(), |k: int| ((x[k] * f[k]) % q) as u64)
}

/// Multiplication of every entry by one constant, reduced modulo `q`.
pub open spec fn scale_const(x: Seq<u64>, c: int, q: int) -> Seq<u64> {
    Seq::new(x.len(), |k: int| ((x[k] * c) % q) as u64)
}

/// The forward network from layer `s` on: the stages of block lengths
/// `n / 2^s`, `n / 2^(s+1)`, ..., `2`, applied in that order.
pub open spec fn fwd_from(
    x: Seq<u64>,
    s: nat,
    layers: nat,
    n: nat,
    tws: Seq<Seq<u64>>,
    q: int,
) -> Seq<u64>
    decreases layers - s,
{
    if s >= layers {
        x
    } else {
        fwd_from(dif_stage(x, n / pow2(s), tws[s as int], q), s + 1, layers, n, tws, q)
    }
}

/// The inverse network undoing layers `s..layers` of the forward network:
/// the stages of block lengths `2`, `4`, ..., `n / 2^s`, applied in that order.
/// `tws[t]` holds the twiddles of the stage with block length `2^(t+1)`.
pub open spec fn inv_from(
    y: Seq<u64>,
    s: nat,
    layers: nat,
    n: nat,
    tws: Seq<Seq<u64>>,
    q: int,
) -> Seq<u64>
    decreases layers - s,
{
    if s >= layers {
        y
    } else {
        dit_stage(
            inv_from(y, s + 1, layers, n, tws, q),
            n / pow2(s),
            tws[(layers - 1 - s) as int],
            q,
        )
    }
}

/// Position `k` of a block of length `len` has been handled by the butterflies
/// of groups before `group`, or by those of `group` with offset below `i`.
pub open spec fn butterfly_done(k: int, len: int, group: int, i: int) -> bool {
    let half = len / 2;
    k / len < group || (k / len == group && (k % len) % half < i)
}

/// Locating the two positions touched by a butterfly.
pub proof fn lemma_butterfly_positions(k: int, len: int, group: int, i: int)
    requires
        len >= 2,
        len % 2 == 0,
        0 <= i < len / 2,
        0 <= group,
        0 <= k,
    ensures
        (group * len + i) / len == group,
        (group * len + i) % len == i,
        (group * len + i + len / 2) / len == group,
        (group * len + i + len / 2) % len == i + len / 2,
        (i + len / 2) % (len / 2) == i,
        i % (len / 2) == i,
        butterfly_done(k, len, group, i + 1) <==> (butterfly_done(k, len, group, i) || k == group
            * len + i || k == group * len + i + len / 2),
        butterfly_done(k, len, group, len / 2) <==> butterfly_done(k, len, group + 1, 0),
{
    let half = len / 2;
    lemma_fundamental_div_mod_converse(group * len + i, len, group, i);
    lemma_fundamental_div_mod_converse(group * len + i + half, len, group, i + half);
    lemma_fundamental_div_mod_converse(i + half, half, 1, i);
    lemma_mod_small(i, half);
    lemma_fundamental_div_mod(k, len);
    lemma_mod_range(k, len);
    let off = k % len;
    lemma_mod_range(off, half);
    if off < half {
        lemma_mod_small(off, half);
    } else {
        lemma_fundamental_div_mod_converse(off, half, 1, off - half);
    }
    if k / len == group {
        assert(k == group * len + off) by {
            assert(len * (k / len) == group * len) by (nonlinear_arith)
                requires
                    k / len == group,
            ;
        }
    }
    if k == group * len + i || k == group * len + i + half {
        assert(k / len == group);
    }
}

// ---------------------------------------------------------------------------
// Pointwise congruences behind the stage lemmas
// ---------------------------------------------------------------------------

proof fn lemma_lin_add(a: int, b: int, c: int, q: int)
    requires
        q > 0,
    ensures
        ((a * c) % q + (b * c) % q) % q == (((a + b) % q) * c) % q,
{
    lemma_mod_add_both(a * c, b * c, q);
    lemma_mod_mul_both(a + b, c, q);
    assert((a + b) * c == a * c + b * c) by (nonlinear_arith);
}

proof fn lemma_lin_sub_mul(a: int, b: int, w: int, c: int, q: int)
    requires
        q > 0,
    ensures
        ((((a * c) % q - (b * c) % q) % q) * w) % q == (((((a - b) % q) * w) % q) * c) % q,
{
    lemma_mod_sub_both(a * c, b * c, q);
    lemma_mod_mul_both(a * c - b * c, w, q);
    lemma_mod_mul_both(((a - b) % q) * w, c, q);
    assert(((a - b) % q) * w * c == ((a - b) % q) * (w * c)) by (nonlinear_arith);
    lemma_mod_mul_both(a - b, w * c, q);
    assert((a * c - b * c) * w == (a - b) * (w * c)) by (nonlinear_arith);
}

proof fn lemma_lin_add_mul(a: int, b: int, w: int, c: int, q: int)
    requires
        q > 0,
    ensures
        ((a * c) % q + (((b * c) % q) * w) % q) % q == (((a + (b * w) % q) % q) * c) % q,
{
    lemma_mod_mul_both(b * c, w, q);
    lemma_mod_add_both(a * c, (b * c) * w, q);
    lemma_mod_mul_both(a + (b * w) % q, c, q);
    lemma_mod_add_both(a, b * w, q);
    lemma_mod_mul_both(a + b * w, c, q);
    assert((a + (b * w) % q) * c == a * c + ((b * w) % q) * c) by (nonlinear_arith);
    assert((a + b * w) * c == a * c + (b * c) * w) by (nonlinear_arith);
    // both sides reduce to (a + b*w) * c
    lemma_mod_add_both(a * c, ((b * w) % q) * c, q);
    lemma_mod_mul_both(b * w, c, q);
    lemma_mod_add_both(a * c, (b * w) * c, q);
    assert((b * w) * c == (b * c) * w) by (nonlinear_arith);
}

proof fn lemma_lin_sub_mul2(a: int, b: int, w: int, c: int, q: int)
    requires
        q > 0,
    ensures
        ((a * c) % q - (((b * c) % q) * w) % q) % q == (((a - (b * w) % q) % q) * c) % q,
{
    lemma_mod_mul_both(b * c, w, q);
    lemma_mod_sub_both(a * c, (b * c) * w, q);
    lemma_mod_mul_both(a - (b * w) % q, c, q);
    assert((a - (b * w) % q) * c == a * c - ((b * w) % q) * c) by (nonlinear_arith);
    lemma_mod_sub_both(a * c, ((b * w) % q) * c, q);
    lemma_mod_mul_both(b * w, c, q);
    lemma_mod_sub_both(a * c, (b * w) * c, q);
    assert((b * w) * c == (b * c) * w) by (nonlinear_arith);
}

/// DIT butterfly after DIF butterfly doubles both inputs.
proof fn lemma_pair_dit_dif(a: int, b: int, w: int, wi: int, q: int)
    requires
        q > 0,
        (w * wi) % q == 1,
    ensures
        ((a + b) % q + (((((a - b) % q) * w) % q) * wi) % q) % q == (a * 2) % q,
        ((a + b) % q - (((((a - b) % q) * w) % q) * wi) % q) % q == (b * 2) % q,
{
    let v = (((a - b) % q) * w) % q;
    // v * wi == (a - b) (mod q)
    assert((v * wi) % q == (a - b) % q) by {
        lemma_mod_mul_both(((a - b) % q) * w, wi, q);
        assert(((a - b) % q) * w * wi == ((a - b) % q) * (w * wi)) by (nonlinear_arith);
        lemma_mod_mul_both((a - b) % q, w * wi, q);
        assert(((a - b) % q) * 1 == (a - b) % q);
        crate::arith::lemma_mod_idem(a - b, q);
    }
    lemma_mod_add_both(a + b, v * wi, q);
    lemma_mod_add_both(a + b, a - b, q);
    lemma_mod_sub_both(a + b, v * wi, q);
    lemma_mod_sub_both(a + b, a - b, q);
    assert((a + b) % q + (v * wi) % q == (a + b) % q + (a - b) % q);
    assert(a + b + (a - b) == a * 2);
    assert(a + b - (a - b) == b * 2);
    lemma_mod_add_both(a + b, a - b, q);
    lemma_mod_sub_both(a + b, a - b, q);
}

/// DIF butterfly after DIT butterfly doubles both inputs.
proof fn lemma_pair_dif_dit(a: int, b: int, w: int, wi: int, q: int)
    requires
        q > 0,
        (w * wi) % q == 1,
    ensures
        ((a + (b * wi) % q) % q + (a - (b * wi) % q) % q) % q == (a * 2) % q,
        (((((a + (b * wi) % q) % q - (a - (b * wi) % q) % q) % q) * w) % q) == (b * 2) % q,
{
    let t = (b * wi) % q;
    lemma_mod_add_both(a + t, a - t, q);
    assert(a + t + (a - t) == a * 2);
    lemma_mod_sub_both(a + t, a - t, q);
    assert(a + t - (a - t) == t * 2);
    lemma_mod_mul_both(t * 2, w, q);
    lemma_mod_mul_both((a + t) % q - (a - t) % q, w, q);
    lemma_mod_mul_both(((a + t) % q - (a - t) % q) % q, w, q);
    assert(t * 2 * w == t * (w * 2)) by (nonlinear_arith);
    lemma_mod_mul_both(b * wi, w * 2, q);
    assert(b * wi * (w * 2) == (b * 2) * (w * wi)) by (nonlinear_arith);
    lemma_mod_mul_both(b * 2, w * wi, q);
    assert((b * 2) * 1 == b * 2);
}

// ---------------------------------------------------------------------------
// Stage-level facts
// ---------------------------------------------------------------------------

/// Reduced values survive the round trip through `u64`.
pub proof fn lemma_cast_mod(v: int, q: int)
    requires
        0 < q <= 0x1_0000_0000_0000_0000,
    ensures
        ((v % q) as u64) as int == v % q,
        0 <= v % q < q,
{
    lemma_mod_range(v, q);
}

/// Butterfly partners inside a block of length `len`.
pub proof fn lemma_stage_index(k: int, len: int, n: int)
    requires
        len >= 2,
        len % 2 == 0,
        n % len == 0,
        0 <= k < n,
    ensures
        0 <= k % len < len,
        k % len < len / 2 ==> k + len / 2 < n && (k + len / 2) % len == k % len + len / 2,
        k % len >= len / 2 ==> k - len / 2 >= 0 && (k - len / 2) % len == k % len - len / 2,
{
    let half = len / 2;
    lemma_fundamental_div_mod(k, len);
    lemma_fundamental_div_mod(n, len);
    lemma_mod_range(k, len);
    let b = k / len;
    let i = k % len;
    assert(b * len + len <= n) by (nonlinear_arith)
        requires
            k == len * b + i,
            0 <= i < len,
            n == len * (n / len),
            k < n,
            len > 0,
    ;
    assert(len * b == b * len) by (nonlinear_arith);
    if i < half {
        lemma_fundamental_div_mod_converse(k + half, len, b, i + half);
    } else {
        assert(b >= 0) by (nonlinear_arith)
            requires
                k == len * b + i,
                k >= 0,
                i < len,
                len > 0,
        ;
        lemma_fundamental_div_mod_converse(k - half, len, b, i - half);
    }
}

/// The shape conditions of a stage with block length `len` on `x`.
pub open spec fn stage_ok(x: Seq<u64>, len: nat, tw: Seq<u64>, q: int) -> bool {
    &&& len >= 2
    &&& len % 2 == 0
    &&& (x.len() as int) % (len as int) == 0
    &&& tw.len() == len / 2
    &&& 0 < q <= 0x1_0000_0000_0000_0000
}

/// Stages produce reduced outputs of the same length.
pub proof fn lemma_stages_reduced(x: Seq<u64>, len: nat, tw: Seq<u64>, q: int)
    requires
        stage_ok(x, len, tw, q),
    ensures
        dif_stage(x, len, tw, q).len() == x.len(),
        dit_stage(x, len, tw, q).len() == x.len(),
        reduced(dif_stage(x, len, tw, q), q),
        reduced(dit_stage(x, len, tw, q), q),
{
    assert forall|k: int| 0 <= k < x.len() implies #[trigger] dif_stage(x, len, tw, q)[k] < q
        && dit_stage(x, len, tw, q)[k] < q by {
        lemma_stage_index(k, len as int, x.len() as int);
        let h = (len / 2) as int;
        let i = k % (len as int);
        if i < h {
            lemma_mod_range(x[k] + x[k + h], q);
            lemma_mod_range(x[k] + (x[k + h] * tw[i]) % q, q);
        } else {
            lemma_mod_range(((x[k - h] - x[k]) % q) * tw[i - h], q);
            lemma_mod_range(x[k - h] - (x[k] * tw[i - h]) % q, q);
        }
    }
}

/// Scaling by a constant commutes with both kinds of stage.
pub proof fn lemma_stages_linear(x: Seq<u64>, len: nat, tw: Seq<u64>, c: int, q: int)
    requires
        stage_ok(x, len, tw, q),
    ensures
        dif_stage(scale_const(x, c, q), len, tw, q) == scale_const(dif_stage(x, len, tw, q), c, q),
        dit_stage(scale_const(x, c, q), len, tw, q) == scale_const(dit_stage(x, len, tw, q), c, q),
{
    let sx = scale_const(x, c, q);
    let h = (len / 2) as int;
    assert forall|k: int|
        #![trigger dif_stage(sx, len, tw, q)[k]]
        #![trigger dit_stage(sx, len, tw, q)[k]]
        0 <= k < x.len() implies dif_stage(sx, len, tw, q)[k] == scale_const(
            dif_stage(x, len, tw, q),
            c,
            q,
        )[k] && dit_stage(sx, len, tw, q)[k] == scale_const(dit_stage(x, len, tw, q), c, q)[k] by {
        lemma_stage_index(k, len as int, x.len() as int);
        let i = k % (len as int);
        if i < h {
            let a = x[k] as int;
            let b = x[k + h] as int;
            lemma_cast_mod(a * c, q);
            lemma_cast_mod(b * c, q);
            lemma_cast_mod(a + b, q);
            lemma_cast_mod(a + (b * tw[i]) % q, q);
            lemma_lin_add(a, b, c, q);
            lemma_lin_add_mul(a, b, tw[i] as int, c, q);
            lemma_cast_mod((a * c) % q + (b * c) % q, q);
            lemma_cast_mod((a * c) % q + (((b * c) % q) * tw[i]) % q, q);
            lemma_cast_mod(((a + b) % q) * c, q);
            lemma_cast_mod(((a + (b * tw[i]) % q) % q) * c, q);
            lemma_cast_mod(((b * c) % q) * tw[i], q);
        } else {
            let a = x[k - h] as int;
            let b = x[k] as int;
            let w = tw[i - h] as int;
            lemma_cast_mod(a * c, q);
            lemma_cast_mod(b * c, q);
            lemma_cast_mod(((a - b) % q) * w, q);
            lemma_cast_mod(a - (b * w) % q, q);
            lemma_lin_sub_mul(a, b, w, c, q);
            lemma_lin_sub_mul2(a, b, w, c, q);
            lemma_cast_mod((((a * c) % q - (b * c) % q) % q) * w, q);
            lemma_cast_mod((a * c) % q - (((b * c) % q) * w) % q, q);
            lemma_cast_mod(((((a - b) % q) * w) % q) * c, q);
            lemma_cast_mod(((a - (b * w) % q) % q) * c, q);
            lemma_cast_mod(((b * c) % q) * w, q);
            lemma_cast_mod((a * c) % q - (b * c) % q, q);
        }
    }
    assert(dif_stage(sx, len, tw, q) =~= scale_const(dif_stage(x, len, tw, q), c, q));
    assert(dit_stage(sx, len, tw, q) =~= scale_const(dit_stage(x, len, tw, q), c, q));
}

/// Twiddle tables that are pointwise inverse to each other.
pub open spec fn inverse_tables(tw: Seq<u64>, twi: Seq<u64>, q: int) -> bool {
    &&& tw.len() == twi.len()
    &&& forall|i: int| 0 <= i < tw.len() ==> (#[trigger] tw[i] * twi[i]) % q == 1
}

/// A DIT stage with inverse twiddles undoes a DIF stage up to a factor of two,
/// and vice versa.
pub proof fn lemma_stage_pair(x: Seq<u64>, len: nat, tw: Seq<u64>, twi: Seq<u64>, q: int)
    requires
        stage_ok(x, len, tw, q),
        inverse_tables(tw, twi, q),
        reduced(x, q),
    ensures
        dit_stage(dif_stage(x, len, tw, q), len, twi, q) == scale_const(x, 2, q),
        dif_stage(dit_stage(x, len, twi, q), len, tw, q) == scale_const(x, 2, q),
{
    let d = dif_stage(x, len, tw, q);
    let t = dit_stage(x, len, twi, q);
    let h = (len / 2) as int;
    assert forall|k: int|
        #![trigger dit_stage(d, len, twi, q)[k]]
        #![trigger dif_stage(t, len, tw, q)[k]]
        0 <= k < x.len() implies dit_stage(d, len, twi, q)[k] == scale_const(x, 2, q)[k]
            && dif_stage(t, len, tw, q)[k] == scale_const(x, 2, q)[k] by {
        lemma_stage_index(k, len as int, x.len() as int);
        let i = k % (len as int);
        if i < h {
            let a = x[k] as int;
            let b = x[k + h] as int;
            let w = tw[i] as int;
            let wi = twi[i] as int;
            lemma_stage_index(k + h, len as int, x.len() as int);
            lemma_cast_mod(a + b, q);
            lemma_cast_mod(((a - b) % q) * w, q);
            lemma_cast_mod(a + (b * wi) % q, q);
            lemma_cast_mod(a - (b * wi) % q, q);
            lemma_pair_dit_dif(a, b, w, wi, q);
            lemma_pair_dif_dit(a, b, w, wi, q);
            lemma_cast_mod((a + b) % q + (((((a - b) % q) * w) % q) * wi) % q, q);
            lemma_cast_mod(((((a - b) % q) * w) % q) * wi, q);
            lemma_cast_mod((a + (b * wi) % q) % q + (a - (b * wi) % q) % q, q);
            lemma_cast_mod(a * 2, q);
        } else {
            let a = x[k - h] as int;
            let b = x[k] as int;
            let w = tw[i - h] as int;
            let wi = twi[i - h] as int;
            lemma_stage_index(k - h, len as int, x.len() as int);
            lemma_cast_mod(a + b, q);
            lemma_cast_mod(((a - b) % q) * w, q);
            lemma_cast_mod(a + (b * wi) % q, q);
            lemma_cast_mod(a - (b * wi) % q, q);
            lemma_pair_dit_dif(a, b, w, wi, q);
            lemma_pair_dif_dit(a, b, w, wi, q);
            lemma_cast_mod((a + b) % q - (((((a - b) % q) * w) % q) * wi) % q, q);
            lemma_cast_mod(((((a - b) % q) * w) % q) * wi, q);
            lemma_cast_mod((((a + (b * wi) % q) % q - (a - (b * wi) % q) % q) % q) * w, q);
            lemma_cast_mod((a + (b * wi) % q) % q - (a - (b * wi) % q) % q, q);
            lemma_cast_mod(b * 2, q);
        }
    }
    assert(dit_stage(d, len, twi, q) =~= scale_const(x, 2, q));
    assert(dif_stage(t, len, tw, q) =~= scale_const(x, 2, q));
}


// ---------------------------------------------------------------------------
// Network-level facts
// ---------------------------------------------------------------------------

/// Shapes of the forward tables: `tws[t]` serves the stage with block length `n / 2^t`.
pub open spec fn dif_tables_ok(layers: nat, n: nat, tws: Seq<Seq<u64>>) -> bool {
    &&& n == pow2(layers)
    &&& tws.len() == layers
    &&& forall|t: int| 0 <= t < layers ==> (#[trigger] tws[t]).len() == n / pow2((t + 1) as nat)
}

/// Shapes of the inverse tables: `twi[t]` serves the stage with block length `2^(t+1)`.
pub open spec fn dit_tables_ok(layers: nat, n: nat, twi: Seq<Seq<u64>>) -> bool {
    &&& n == pow2(layers)
    &&& twi.len() == layers
    &&& forall|t: int| 0 <= t < layers ==> (#[trigger] twi[t]).len() == pow2(t as nat)
}

/// Each forward stage table is pointwise inverse to the table of the inverse
/// stage with the same block length.
pub open spec fn tables_paired(layers: nat, tws: Seq<Seq<u64>>, twi: Seq<Seq<u64>>, q: int) -> bool {
    forall|s: int| 0 <= s < layers ==> inverse_tables(#[trigger] tws[s], twi[layers - 1 - s], q)
}

/// A modulus whose residues fit in a `u64`.
pub open spec fn modulus_ok(q: int) -> bool {
    0 < q <= 0x1_0000_0000_0000_0000
}

/// The stage of layer `s` meets the shape conditions.
proof fn lemma_layer_ok(x: Seq<u64>, s: nat, layers: nat, n: nat, tws: Seq<Seq<u64>>, twi: Seq<Seq<u64>>, q: int)
    requires
        dif_tables_ok(layers, n, tws),
        dit_tables_ok(layers, n, twi),
        x.len() == n,
        s < layers,
        modulus_ok(q),
    ensures
        stage_ok(x, n / pow2(s), tws[s as int], q),
        stage_ok(x, n / pow2(s), twi[(layers - 1 - s) as int], q),
{
    crate::arith::lemma_stage_len(layers, s);
    assert(tws[s as int].len() == n / pow2(s + 1));
    let t = (layers - 1 - s) as int;
    assert(twi[t].len() == pow2(t as nat));
    assert((layers - s - 1) as nat == t as nat);
}

/// The forward network keeps the length and yields residues.
pub proof fn lemma_fwd_shape(x: Seq<u64>, s: nat, layers: nat, n: nat, tws: Seq<Seq<u64>>, q: int)
    requires
        dif_tables_ok(layers, n, tws),
        x.len() == n,
        reduced(x, q),
        modulus_ok(q),
    ensures
        fwd_from(x, s, layers, n, tws, q).len() == n,
        reduced(fwd_from(x, s, layers, n, tws, q), q),
    decreases layers - s,
{
    if s < layers {
        crate::arith::lemma_stage_len(layers, s);
        assert(tws[s as int].len() == n / pow2(s + 1));
        lemma_stages_reduced(x, n / pow2(s), tws[s as int], q);
        lemma_fwd_shape(dif_stage(x, n / pow2(s), tws[s as int], q), s + 1, layers, n, tws, q);
    }
}

/// The inverse network keeps the length and yields residues.
pub proof fn lemma_inv_shape(y: Seq<u64>, s: nat, layers: nat, n: nat, twi: Seq<Seq<u64>>, q: int)
    requires
        dit_tables_ok(layers, n, twi),
        y.len() == n,
        reduced(y, q),
        modulus_ok(q),
    ensures
        inv_from(y, s, layers, n, twi, q).len() == n,
        reduced(inv_from(y, s, layers, n, twi, q), q),
    decreases layers - s,
{
    if s < layers {
        lemma_inv_shape(y, s + 1, layers, n, twi, q);
        crate::arith::lemma_stage_len(layers, s);
        let t = (layers - 1 - s) as int;
        assert(twi[t].len() == pow2(t as nat));
        assert((layers - s - 1) as nat == t as nat);
        lemma_stages_reduced(inv_from(y, s + 1, layers, n, twi, q), n / pow2(s), twi[t], q);
    }
}

/// Scaling by `a` then by `b` is scaling by `a * b`.
pub proof fn lemma_scale_const_compose(x: Seq<u64>, a: int, b: int, q: int)
    requires
        modulus_ok(q),
    ensures
        scale_const(scale_const(x, a, q), b, q) == scale_const(x, a * b, q),
{
    assert forall|k: int| 0 <= k < x.len() implies #[trigger] scale_const(scale_const(x, a, q), b, q)[k]
        == scale_const(x, a * b, q)[k] by {
        let v = x[k] as int;
        lemma_cast_mod(v * a, q);
        lemma_mod_mul_both(v * a, b, q);
        assert(v * a * b == v * (a * b)) by (nonlinear_arith);
    }
    assert(scale_const(scale_const(x, a, q), b, q) =~= scale_const(x, a * b, q));
}

/// Scaling residues by one changes nothing.
pub proof fn lemma_scale_const_one(x: Seq<u64>, q: int)
    requires
        modulus_ok(q),
        reduced(x, q),
    ensures
        scale_const(x, 1, q) == x,
{
    assert forall|k: int| 0 <= k < x.len() implies #[trigger] scale_const(x, 1, q)[k] == x[k] by {
        lemma_mod_small(x[k] as int, q);
    }
    assert(scale_const(x, 1, q) =~= x);
}

/// Scaling by a constant commutes with the forward network.
pub proof fn lemma_fwd_linear(x: Seq<u64>, s: nat, layers: nat, n: nat, tws: Seq<Seq<u64>>, c: int, q: int)
    requires
        dif_tables_ok(layers, n, tws),
        x.len() == n,
        modulus_ok(q),
    ensures
        fwd_from(scale_const(x, c, q), s, layers, n, tws, q) == scale_const(fwd_from(x, s, layers, n, tws, q), c, q),
    decreases layers - s,
{
    if s < layers {
        let len = n / pow2(s);
        let tw = tws[s as int];
        crate::arith::lemma_stage_len(layers, s);
        assert(tw.len() == n / pow2(s + 1));
        lemma_stages_linear(x, len, tw, c, q);
        lemma_stages_reduced(x, len, tw, q);
        lemma_fwd_linear(dif_stage(x, len, tw, q), s + 1, layers, n, tws, c, q);
    }
}

/// The inverse network from layer `s` undoes the forward network from layer `s`,
/// up to the factor `2^(layers - s)`.
pub proof fn lemma_inv_after_fwd(
    z: Seq<u64>,
    s: nat,
    layers: nat,
    n: nat,
    tws: Seq<Seq<u64>>,
    twi: Seq<Seq<u64>>,
    q: int,
)
    requires
        dif_tables_ok(layers, n, tws),
        dit_tables_ok(layers, n, twi),
        tables_paired(layers, tws, twi, q),
        z.len() == n,
        reduced(z, q),
        modulus_ok(q),
        s <= layers,
    ensures
        inv_from(fwd_from(z, s, layers, n, tws, q), s, layers, n, twi, q) == scale_const(
            z,
            pow2((layers - s) as nat) as int,
            q,
        ),
    decreases layers - s,
{
    if s == layers {
        lemma_scale_const_one(z, q);
        vstd::arithmetic::power2::lemma2_to64();
    } else {
        let len = n / pow2(s);
        let tw = tws[s as int];
        let wi = twi[(layers - 1 - s) as int];
        let p = pow2((layers - s - 1) as nat) as int;
        lemma_layer_ok(z, s, layers, n, tws, twi, q);
        assert(inverse_tables(tw, wi, q));
        let d = dif_stage(z, len, tw, q);
        lemma_stages_reduced(z, len, tw, q);
        lemma_inv_after_fwd(d, s + 1, layers, n, tws, twi, q);
        assert(fwd_from(z, s, layers, n, tws, q) == fwd_from(d, s + 1, layers, n, tws, q));
        lemma_layer_ok(d, s, layers, n, tws, twi, q);
        lemma_stages_linear(d, len, wi, p, q);
        lemma_stage_pair(z, len, tw, wi, q);
        lemma_scale_const_compose(z, 2, p, q);
        vstd::arithmetic::power2::lemma_pow2_unfold((layers - s) as nat);
        assert((layers - s - 1) as nat == ((layers - s) as nat - 1) as nat);
    }
}

/// The forward network from layer `s` undoes the inverse network from layer `s`,
/// up to the factor `2^(layers - s)`.
pub proof fn lemma_fwd_after_inv(
    y: Seq<u64>,
    s: nat,
    layers: nat,
    n: nat,
    tws: Seq<Seq<u64>>,
    twi: Seq<Seq<u64>>,
    q: int,
)
    requires
        dif_tables_ok(layers, n, tws),
        dit_tables_ok(layers, n, twi),
        tables_paired(layers, tws, twi, q),
        y.len() == n,
        reduced(y, q),
        modulus_ok(q),
        s <= layers,
    ensures
        fwd_from(inv_from(y, s, layers, n, twi, q), s, layers, n, tws, q) == scale_const(
            y,
            pow2((layers - s) as nat) as int,
            q,
        ),
    decreases layers - s,
{
    if s == layers {
        lemma_scale_const_one(y, q);
        vstd::arithmetic::power2::lemma2_to64();
    } else {
        let len = n / pow2(s);
        let tw = tws[s as int];
        let wi = twi[(layers - 1 - s) as int];
        let p = pow2((layers - s - 1) as nat) as int;
        let w = inv_from(y, s + 1, layers, n, twi, q);
        lemma_inv_shape(y, s + 1, layers, n, twi, q);
        lemma_layer_ok(w, s, layers, n, tws, twi, q);
        assert(inverse_tables(tw, wi, q));
        lemma_stage_pair(w, len, tw, wi, q);
        lemma_fwd_linear(w, s + 1, layers, n, tws, 2, q);
        lemma_fwd_after_inv(y, s + 1, layers, n, tws, twi, q);
        lemma_scale_const_compose(y, p, 2, q);
        vstd::arithmetic::power2::lemma_pow2_unfold((layers - s) as nat);
        assert((layers - s - 1) as nat == ((layers - s) as nat - 1) as nat);
        assert(inv_from(y, s, layers, n, twi, q) == dit_stage(w, len, wi, q));
    }
}

} // verus!
