//! Finite sums of integer sequences given as spec closures, and the algebra
//! needed to rearrange them.

use vstd::prelude::*;

verus! {

/// `f(0) + f(1) + ... + f(k-1)`.
pub open spec fn sum_f(f: spec_fn(int) -> int, k: nat) -> int
    decreases k,
{
    if k == 0 {
        0
    } else {
        sum_f(f, (k - 1) as nat) + f(k - 1)
    }
}

/// Sums of termwise congruent sequences are congruent.
pub proof fn lemma_sum_congruent(f: spec_fn(int) -> int, g: spec_fn(int) -> int, k: nat, q: int)
    requires
        q > 0,
        forall|m: int| 0 <= m < k ==> #[trigger] f(m) % q == g(m) % q,
    ensures
        sum_f(f, k) % q == sum_f(g, k) % q,
    decreases k,
{
    if k > 0 {
        lemma_sum_congruent(f, g, (k - 1) as nat, q);
        crate::arith::lemma_mod_add_both(sum_f(f, (k - 1) as nat), f(k - 1), q);
        crate::arith::lemma_mod_add_both(sum_f(g, (k - 1) as nat), g(k - 1), q);
    }
}

/// Sums of termwise equal sequences are equal.
pub proof fn lemma_sum_ext(f: spec_fn(int) -> int, g: spec_fn(int) -> int, k: nat)
    requires
        forall|m: int| 0 <= m < k ==> #[trigger] f(m) == g(m),
    ensures
        sum_f(f, k) == sum_f(g, k),
    decreases k,
{
    if k > 0 {
        lemma_sum_ext(f, g, (k - 1) as nat);
    }
}

/// The sum of a termwise sum is the sum of the sums.
pub proof fn lemma_sum_add(f: spec_fn(int) -> int, g: spec_fn(int) -> int, k: nat)
    ensures
        sum_f(|m: int| f(m) + g(m), k) == sum_f(f, k) + sum_f(g, k),
    decreases k,
{
    if k > 0 {
        lemma_sum_add(f, g, (k - 1) as nat);
    }
}

/// A constant factor comes out of a sum.
pub proof fn lemma_sum_scale(f: spec_fn(int) -> int, c: int, k: nat)
    ensures
        sum_f(|m: int| c * f(m), k) == c * sum_f(f, k),
    decreases k,
{
    if k > 0 {
        lemma_sum_scale(f, c, (k - 1) as nat);
        assert(c * sum_f(f, (k - 1) as nat) + c * f(k - 1) == c * (sum_f(f, (k - 1) as nat) + f(
            k - 1,
        ))) by (nonlinear_arith);
    }
}

/// A sum of length `h + k` splits into the first `h` terms and the `k` terms after them.
pub proof fn lemma_sum_split(f: spec_fn(int) -> int, h: nat, k: nat)
    ensures
        sum_f(f, h + k) == sum_f(f, h) + sum_f(|m: int| f(m + h), k),
    decreases k,
{
    if k > 0 {
        lemma_sum_split(f, h, (k - 1) as nat);
        assert((h + k - 1) as nat == (h + (k - 1)) as nat);
    }
}

/// The sum with its first term split off.
pub proof fn lemma_sum_first(f: spec_fn(int) -> int, k: nat)
    requires
        k > 0,
    ensures
        sum_f(f, k) == f(0) + sum_f(|m: int| f(m + 1), (k - 1) as nat),
{
    lemma_sum_split(f, 1, (k - 1) as nat);
    assert(sum_f(f, 0) == 0);
    assert(sum_f(f, 1) == f(0));
    assert((1 + (k - 1)) as nat == k);
}

/// A sum of zeros is zero.
pub proof fn lemma_sum_zero(f: spec_fn(int) -> int, k: nat)
    requires
        forall|m: int| 0 <= m < k ==> #[trigger] f(m) == 0,
    ensures
        sum_f(f, k) == 0,
    decreases k,
{
    if k > 0 {
        lemma_sum_zero(f, (k - 1) as nat);
    }
}

/// Double sums can be taken in either order.
pub proof fn lemma_sum_swap(f: spec_fn(int, int) -> int, a: nat, b: nat)
    ensures
        sum_f(|i: int| sum_f(|j: int| f(i, j), b), a) == sum_f(
            |j: int| sum_f(|i: int| f(i, j), a),
            b,
        ),
    decreases a,
{
    if a > 0 {
        let a1 = (a - 1) as nat;
        lemma_sum_swap(f, a1, b);
        // sum_j sum_{i < a} f(i, j) == sum_j (sum_{i < a1} f(i, j) + f(a1 as int, j))
        let g = |j: int| sum_f(|i: int| f(i, j), a1);
        let h = |j: int| f(a1 as int, j);
        lemma_sum_add(g, h, b);
        lemma_sum_ext(
            |j: int| sum_f(|i: int| f(i, j), a),
            |j: int| g(j) + h(j),
            b,
        );
        assert(sum_f(|i: int| sum_f(|j: int| f(i, j), b), a) == sum_f(
            |i: int| sum_f(|j: int| f(i, j), b),
            a1,
        ) + sum_f(|j: int| f(a1 as int, j), b));
        assert(sum_f(h, b) == sum_f(|j: int| f(a1 as int, j), b)) by {
            lemma_sum_ext(h, |j: int| f(a1 as int, j), b);
        }
    } else {
        lemma_sum_zero(|j: int| sum_f(|i: int| f(i, j), a), b);
    }
}

} // verus!
