//! Homomorphic addition, subtraction and negation of ciphertexts: the
//! components are combined limb by limb, and level and scale carry over.
//! Operands must agree in level and in scale; scales are compared as `f64`
//! values from their bit patterns (so `+0.0` equals `-0.0` and a NaN equals
//! nothing).

use crate::ckks_error::{decimal, CkksError};
use crate::params::{f64_bits_eq, same_scale, Ciphertext, Plaintext};
use crate::poly::{add_spec, lemma_add_negate_is_zero, lemma_add_sub_cancel, negate_spec, sub_spec, Poly};
use crate::rns::RnsPoly;
use vstd::prelude::*;

verus! {

/// `r` is the limbwise sum of `a` and `b`, over the basis of `a`.
pub open spec fn rns_sum(r: RnsPoly, a: RnsPoly, b: RnsPoly) -> bool {
    &&& r.basis.moduli@ == a.basis.moduli@
    &&& r.limbs@.len() == a.limbs@.len()
    &&& forall|i: int|
        0 <= i < r.limbs@.len() ==> {
            let l = #[trigger] r.limbs@[i];
            &&& l.coeffs@ == add_spec(a.limbs@[i].coeffs@, b.limbs@[i].coeffs@, a.limbs@[i].modulus as int)
            &&& l.modulus == a.limbs@[i].modulus
            &&& l.domain == a.limbs@[i].domain
        }
}

/// `r` is the limbwise difference `a - b`, over the basis of `a`.
pub open spec fn rns_difference(r: RnsPoly, a: RnsPoly, b: RnsPoly) -> bool {
    &&& r.basis.moduli@ == a.basis.moduli@
    &&& r.limbs@.len() == a.limbs@.len()
    &&& forall|i: int|
        0 <= i < r.limbs@.len() ==> {
            let l = #[trigger] r.limbs@[i];
            &&& l.coeffs@ == sub_spec(a.limbs@[i].coeffs@, b.limbs@[i].coeffs@, a.limbs@[i].modulus as int)
            &&& l.modulus == a.limbs@[i].modulus
            &&& l.domain == a.limbs@[i].domain
        }
}

/// `r` is the limbwise negation of `a`.
pub open spec fn rns_negation(r: RnsPoly, a: RnsPoly) -> bool {
    &&& r.basis.moduli@ == a.basis.moduli@
    &&& r.limbs@.len() == a.limbs@.len()
    &&& forall|i: int|
        0 <= i < r.limbs@.len() ==> {
            let l = #[trigger] r.limbs@[i];
            &&& l.coeffs@ == negate_spec(a.limbs@[i].coeffs@, a.limbs@[i].modulus as int)
            &&& l.modulus == a.limbs@[i].modulus
            &&& l.domain == a.limbs@[i].domain
        }
}

/// `r` holds the same basis and limbs as `a`.
pub open spec fn rns_same(r: RnsPoly, a: RnsPoly) -> bool {
    &&& r.basis.moduli@ == a.basis.moduli@
    &&& r.limbs@.len() == a.limbs@.len()
    &&& forall|i: int|
        0 <= i < r.limbs@.len() ==> {
            let l = #[trigger] r.limbs@[i];
            &&& l.coeffs@ == a.limbs@[i].coeffs@
            &&& l.modulus == a.limbs@[i].modulus
            &&& l.domain == a.limbs@[i].domain
        }
}

/// The message of a level mismatch between two operands of `op`.
pub open spec fn level_mismatch_text(op: Seq<char>, a: nat, b: nat) -> Seq<char> {
    op + ": level mismatch "@ + decimal(a) + " vs "@ + decimal(b)
}

/// The message of a level mismatch between a ciphertext and a plaintext.
pub open spec fn ct_pt_level_mismatch_text(ct: nat, pt: nat) -> Seq<char> {
    "add_ct_pt: level mismatch ct="@ + decimal(ct) + " pt="@ + decimal(pt)
}

/// The message of a scale mismatch between two operands of `op`.
pub open spec fn scale_mismatch_text(op: Seq<char>) -> Seq<char> {
    op + ": scale mismatch"@
}

/// Formats `"{op}: level mismatch {a} vs {b}"` with `format!`, which writes
/// integers in decimal.
#[verifier::external_body]
fn level_mismatch_message(op: &str, a: usize, b: usize) -> (r: String)
    ensures
        r@ == level_mismatch_text(op@, a as nat, b as nat),
{
    format!("{op}: level mismatch {a} vs {b}")
}

/// Formats `"add_ct_pt: level mismatch ct={ct} pt={pt}"` with `format!`.
#[verifier::external_body]
fn ct_pt_level_mismatch_message(ct: usize, pt: usize) -> (r: String)
    ensures
        r@ == ct_pt_level_mismatch_text(ct as nat, pt as nat),
{
    format!("add_ct_pt: level mismatch ct={ct} pt={pt}")
}

/// Formats `"{op}: scale mismatch"` with `format!`.
#[verifier::external_body]
fn scale_mismatch_message(op: &str) -> (r: String)
    ensures
        r@ == scale_mismatch_text(op@),
{
    format!("{op}: scale mismatch")
}

/// A copy of `a` with the same basis and limbs.
fn rns_copy(a: &RnsPoly) -> (r: RnsPoly)
    ensures
        rns_same(r, *a),
{
    let mut limbs: Vec<Poly> = Vec::new();
    let mut i = 0usize;
    while i < a.limbs.len()
        invariant
            i <= a.limbs@.len(),
            limbs@.len() == i,
            forall|k: int|
                0 <= k < i ==> {
                    let l = #[trigger] limbs@[k];
                    &&& l.coeffs@ == a.limbs@[k].coeffs@
                    &&& l.modulus == a.limbs@[k].modulus
                    &&& l.domain == a.limbs@[k].domain
                },
        decreases a.limbs@.len() - i,
    {
        limbs.push(a.limbs[i].duplicate());
        i += 1;
    }
    RnsPoly { limbs, basis: a.basis.duplicate() }
}

/// The limbwise negation of a polynomial of residues.
fn rns_negate(a: &RnsPoly) -> (r: RnsPoly)
    requires
        a.wf(),
    ensures
        rns_negation(r, *a),
{
    let mut limbs: Vec<Poly> = Vec::new();
    let mut i = 0usize;
    while i < a.limbs.len()
        invariant
            a.wf(),
            i <= a.limbs@.len(),
            limbs@.len() == i,
            forall|k: int|
                0 <= k < i ==> {
                    let l = #[trigger] limbs@[k];
                    &&& l.coeffs@ == negate_spec(a.limbs@[k].coeffs@, a.limbs@[k].modulus as int)
                    &&& l.modulus == a.limbs@[k].modulus
                    &&& l.domain == a.limbs@[k].domain
                },
        decreases a.limbs@.len() - i,
    {
        proof {
            let l = a.limbs@[i as int];
            assert(l.wf());
            assert forall|j: int| 0 <= j < l.coeffs@.len() implies #[trigger] l.coeffs@[j]
                <= l.modulus by {
                assert(crate::ntt_spec::reduced(l.coeffs@, l.modulus as int));
            }
        }
        limbs.push(a.limbs[i].negate());
        i += 1;
    }
    RnsPoly { limbs, basis: a.basis.duplicate() }
}

/// Ciphertext + ciphertext: `(c0 + c0', c1 + c1')` at the common level and
/// scale; an `Eval` error when the levels or the scales differ.
pub fn add_ct_ct(ct1: &Ciphertext, ct2: &Ciphertext) -> (r: Result<Ciphertext, CkksError>)
    requires
        ct1.level == ct2.level && f64_bits_eq(ct1.scale_bits, ct2.scale_bits) ==> ct1.c0.compatible(&ct2.c0)
            && ct1.c1.compatible(&ct2.c1),
    ensures
        ct1.level != ct2.level ==> (r matches Err(CkksError::Eval(msg)) && msg@
            == level_mismatch_text("add_ct_ct"@, ct1.level as nat, ct2.level as nat)),
        ct1.level == ct2.level && !f64_bits_eq(ct1.scale_bits, ct2.scale_bits) ==> (r matches Err(
            CkksError::Eval(msg),
        ) && msg@ == scale_mismatch_text("add_ct_ct"@)),
        (ct1.level == ct2.level && f64_bits_eq(ct1.scale_bits, ct2.scale_bits)) ==> (r matches Ok(ct)
            && rns_sum(ct.c0, ct1.c0, ct2.c0) && rns_sum(ct.c1, ct1.c1, ct2.c1) && ct.level
            == ct1.level && ct.scale_bits == ct1.scale_bits && ct.params is None),
{
    if ct1.level != ct2.level {
        return Err(CkksError::Eval(level_mismatch_message("add_ct_ct", ct1.level, ct2.level)));
    }
    if !same_scale(ct1.scale_bits, ct2.scale_bits) {
        return Err(CkksError::Eval(scale_mismatch_message("add_ct_ct")));
    }
    let c0 = ct1.c0.add(&ct2.c0);
    let c1 = ct1.c1.add(&ct2.c1);
    Ok(Ciphertext::new(c0, c1, ct1.level, ct1.scale_bits))
}

/// Ciphertext + plaintext: `(c0 + m, c1)` at the common level and scale; an
/// `Eval` error when the levels or the scales differ.
pub fn add_ct_pt(ct: &Ciphertext, pt: &Plaintext) -> (r: Result<Ciphertext, CkksError>)
    requires
        ct.level == pt.level && f64_bits_eq(ct.scale_bits, pt.scale_bits) ==> ct.c0.compatible(&pt.poly),
    ensures
        ct.level != pt.level ==> (r matches Err(CkksError::Eval(msg)) && msg@
            == ct_pt_level_mismatch_text(ct.level as nat, pt.level as nat)),
        ct.level == pt.level && !f64_bits_eq(ct.scale_bits, pt.scale_bits) ==> (r matches Err(
            CkksError::Eval(msg),
        ) && msg@ == scale_mismatch_text("add_ct_pt"@)),
        (ct.level == pt.level && f64_bits_eq(ct.scale_bits, pt.scale_bits)) ==> (r matches Ok(out) && rns_sum(
            out.c0,
            ct.c0,
            pt.poly,
        ) && rns_same(out.c1, ct.c1) && out.level == ct.level && out.scale_bits == ct.scale_bits
            && out.params is None),
{
    if ct.level != pt.level {
        return Err(CkksError::Eval(ct_pt_level_mismatch_message(ct.level, pt.level)));
    }
    if !same_scale(ct.scale_bits, pt.scale_bits) {
        return Err(CkksError::Eval(scale_mismatch_message("add_ct_pt")));
    }
    let c0 = ct.c0.add(&pt.poly);
    let c1 = rns_copy(&ct.c1);
    Ok(Ciphertext::new(c0, c1, ct.level, ct.scale_bits))
}

/// Ciphertext - ciphertext: `(c0 - c0', c1 - c1')` at the common level and
/// scale; an `Eval` error when the levels or the scales differ.
pub fn sub_ct_ct(ct1: &Ciphertext, ct2: &Ciphertext) -> (r: Result<Ciphertext, CkksError>)
    requires
        ct1.level == ct2.level && f64_bits_eq(ct1.scale_bits, ct2.scale_bits) ==> ct1.c0.compatible(&ct2.c0)
            && ct1.c1.compatible(&ct2.c1),
    ensures
        ct1.level != ct2.level ==> (r matches Err(CkksError::Eval(msg)) && msg@
            == level_mismatch_text("sub_ct_ct"@, ct1.level as nat, ct2.level as nat)),
        ct1.level == ct2.level && !f64_bits_eq(ct1.scale_bits, ct2.scale_bits) ==> (r matches Err(
            CkksError::Eval(msg),
        ) && msg@ == scale_mismatch_text("sub_ct_ct"@)),
        (ct1.level == ct2.level && f64_bits_eq(ct1.scale_bits, ct2.scale_bits)) ==> (r matches Ok(ct)
            && rns_difference(ct.c0, ct1.c0, ct2.c0) && rns_difference(ct.c1, ct1.c1, ct2.c1)
            && ct.level == ct1.level && ct.scale_bits == ct1.scale_bits && ct.params is None),
{
    if ct1.level != ct2.level {
        return Err(CkksError::Eval(level_mismatch_message("sub_ct_ct", ct1.level, ct2.level)));
    }
    if !same_scale(ct1.scale_bits, ct2.scale_bits) {
        return Err(CkksError::Eval(scale_mismatch_message("sub_ct_ct")));
    }
    let c0 = ct1.c0.sub(&ct2.c0);
    let c1 = ct1.c1.sub(&ct2.c1);
    Ok(Ciphertext::new(c0, c1, ct1.level, ct1.scale_bits))
}

/// Negation: `(-c0, -c1)` modulo each limb's modulus, level and scale kept.
pub fn negate(ct: &Ciphertext) -> (r: Ciphertext)
    requires
        ct.c0.wf(),
        ct.c1.wf(),
    ensures
        rns_negation(r.c0, ct.c0),
        rns_negation(r.c1, ct.c1),
        r.level == ct.level,
        r.scale_bits == ct.scale_bits,
        r.params is None,
{
    Ciphertext::new(rns_negate(&ct.c0), rns_negate(&ct.c1), ct.level, ct.scale_bits)
}

/// Limbwise, subtracting `b` from `a + b` gives back the residues of `a`.
proof fn lemma_rns_sub_undoes_add(a: RnsPoly, b: RnsPoly, s: RnsPoly, d: RnsPoly)
    requires
        a.wf(),
        a.compatible(&b),
        rns_sum(s, a, b),
        rns_difference(d, s, b),
    ensures
        rns_same(d, a),
{
    assert forall|i: int| 0 <= i < d.limbs@.len() implies {
        let l = #[trigger] d.limbs@[i];
        &&& l.coeffs@ == a.limbs@[i].coeffs@
        &&& l.modulus == a.limbs@[i].modulus
        &&& l.domain == a.limbs@[i].domain
    } by {
        let al = a.limbs@[i];
        let bl = b.limbs@[i];
        assert(al.wf());
        assert(bl.coeffs@.len() == al.coeffs@.len());
        assert(s.limbs@[i].coeffs@ == add_spec(al.coeffs@, bl.coeffs@, al.modulus as int));
        lemma_add_sub_cancel(al.coeffs@, bl.coeffs@, al.modulus as int);
    }
}

/// Limbwise, a polynomial of residues plus its negation is zero.
proof fn lemma_rns_add_negation_is_zero(a: RnsPoly, n: RnsPoly, z: RnsPoly)
    requires
        a.wf(),
        rns_negation(n, a),
        rns_sum(z, a, n),
    ensures
        forall|i: int|
            0 <= i < z.limbs@.len() ==> (#[trigger] z.limbs@[i]).coeffs@ == Seq::new(
                a.limbs@[i].coeffs@.len(),
                |k: int| 0u64,
            ),
{
    assert forall|i: int| 0 <= i < z.limbs@.len() implies (#[trigger] z.limbs@[i]).coeffs@
        == Seq::new(a.limbs@[i].coeffs@.len(), |k: int| 0u64) by {
        let al = a.limbs@[i];
        assert(al.wf());
        lemma_add_negate_is_zero(al.coeffs@, al.modulus as int);
    }
}

/// Subtracting a ciphertext undoes adding it: for ciphertexts of residues at
/// one level, `sub_ct_ct(add_ct_ct(a, b), b)` has the components of `a`.
pub proof fn lemma_sub_undoes_add(a: Ciphertext, b: Ciphertext, s: Ciphertext, d: Ciphertext)
    requires
        a.c0.wf(),
        a.c1.wf(),
        a.c0.compatible(&b.c0),
        a.c1.compatible(&b.c1),
        rns_sum(s.c0, a.c0, b.c0),
        rns_sum(s.c1, a.c1, b.c1),
        rns_difference(d.c0, s.c0, b.c0),
        rns_difference(d.c1, s.c1, b.c1),
    ensures
        rns_same(d.c0, a.c0),
        rns_same(d.c1, a.c1),
{
    lemma_rns_sub_undoes_add(a.c0, b.c0, s.c0, d.c0);
    lemma_rns_sub_undoes_add(a.c1, b.c1, s.c1, d.c1);
}

/// A ciphertext plus its negation has all-zero components: so do the
/// components of `add_ct_ct(a, negate(a))`.
pub proof fn lemma_add_negation_is_zero(a: Ciphertext, n: Ciphertext, z: Ciphertext)
    requires
        a.c0.wf(),
        a.c1.wf(),
        rns_negation(n.c0, a.c0),
        rns_negation(n.c1, a.c1),
        rns_sum(z.c0, a.c0, n.c0),
        rns_sum(z.c1, a.c1, n.c1),
    ensures
        forall|i: int|
            0 <= i < z.c0.limbs@.len() ==> (#[trigger] z.c0.limbs@[i]).coeffs@ == Seq::new(
                a.c0.limbs@[i].coeffs@.len(),
                |k: int| 0u64,
            ),
        forall|i: int|
            0 <= i < z.c1.limbs@.len() ==> (#[trigger] z.c1.limbs@[i]).coeffs@ == Seq::new(
                a.c1.limbs@[i].coeffs@.len(),
                |k: int| 0u64,
            ),
{
    lemma_rns_add_negation_is_zero(a.c0, n.c0, z.c0);
    lemma_rns_add_negation_is_zero(a.c1, n.c1, z.c1);
}

} // verus!
