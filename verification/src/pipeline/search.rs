//! Enumerating candidate arrangements.
//!
//! An arrangement gives each source one of its candidate offsets. The search
//! visits every combination with a mixed-radix counter of candidate indices,
//! the last source's index turning fastest.
use vstd::prelude::*;

verus! {

/// Number of combinations of the first `k` sources' candidates.
pub open spec fn radix_product(counts: Seq<usize>, k: int) -> int
    decreases k,
{
    if k <= 0 {
        1
    } else {
        radix_product(counts, k - 1) * counts[k - 1]
    }
}

/// Rank of the combination chosen by the first `k` indices, the last index
/// being the least significant digit.
pub open spec fn radix_value(indices: Seq<usize>, counts: Seq<usize>, k: int) -> int
    decreases k,
{
    if k <= 0 {
        0
    } else {
        radix_value(indices, counts, k - 1) * counts[k - 1] + indices[k - 1]
    }
}

/// Every index is within its source's candidate count.
pub open spec fn digits_ok(indices: Seq<usize>, counts: Seq<usize>) -> bool {
    &&& indices.len() == counts.len()
    &&& forall|j: int| 0 <= j < indices.len() ==> #[trigger] indices[j] < counts[j]
}

proof fn lemma_value_bound(indices: Seq<usize>, counts: Seq<usize>, k: int)
    requires
        digits_ok(indices, counts),
        0 <= k <= indices.len(),
    ensures
        0 <= radix_value(indices, counts, k) < radix_product(counts, k),
    decreases k,
{
    if k > 0 {
        lemma_value_bound(indices, counts, k - 1);
        let v = radix_value(indices, counts, k - 1);
        let p = radix_product(counts, k - 1);
        let c = counts[k - 1] as int;
        let d = indices[k - 1] as int;
        assert(0 <= v * c + d < p * c) by (nonlinear_arith)
            requires 0 <= v < p, 0 <= d < c;
    }
}

proof fn lemma_value_prefix(a: Seq<usize>, b: Seq<usize>, counts: Seq<usize>, k: int)
    requires
        0 <= k <= a.len(),
        k <= b.len(),
        forall|j: int| 0 <= j < k ==> a[j] == b[j],
    ensures
        radix_value(a, counts, k) == radix_value(b, counts, k),
    decreases k,
{
    if k > 0 {
        lemma_value_prefix(a, b, counts, k - 1);
    }
}

/// Steps the counter formed by the first `k` indices.
#[verifier::spinoff_prover]
fn advance_prefix(indices: &mut Vec<usize>, counts: &[usize], k: usize) -> (wrapped: bool)
    requires
        digits_ok(old(indices)@, counts@),
        k <= counts@.len(),
    ensures
        digits_ok(final(indices)@, counts@),
        forall|j: int| k <= j < counts@.len() ==> #[trigger] final(indices)@[j] == old(indices)@[j],
        radix_value(final(indices)@, counts@, k as int) == (radix_value(old(indices)@, counts@, k as int) + 1)
            % radix_product(counts@, k as int),
        wrapped == (radix_value(old(indices)@, counts@, k as int) + 1 == radix_product(counts@, k as int)),
    decreases k,
{
    if k == 0 {
        return true;
    }
    let ghost before = indices@;
    proof {
        lemma_value_bound(before, counts@, k - 1);
    }
    let ghost v = radix_value(before, counts@, k - 1);
    let ghost p = radix_product(counts@, k - 1);
    let c = counts[k - 1];
    let d = indices[k - 1];
    assert(d < c);
    if d + 1 < c {
        indices.set(k - 1, d + 1);
        proof {
            lemma_value_prefix(indices@, before, counts@, k - 1);
            assert(v * c + d + 1 < p * c) by (nonlinear_arith)
                requires 0 <= v < p, d + 1 < c;
            assert(0 <= v * c + d) by (nonlinear_arith)
                requires 0 <= v, 0 <= d, 0 <= c;
            vstd::arithmetic::div_mod::lemma_small_mod((v * c + d + 1) as nat, (p * c) as nat);
            assert(radix_value(indices@, counts@, k as int) == v * c + d + 1);
            assert(radix_value(before, counts@, k as int) == v * c + d);
            assert(radix_product(counts@, k as int) == p * c);
        }
        false
    } else {
        indices.set(k - 1, 0);
        let ghost middle = indices@;
        proof {
            lemma_value_prefix(middle, before, counts@, k - 1);
        }
        let wrapped = advance_prefix(indices, counts, k - 1);
        proof {
            let v2 = radix_value(indices@, counts@, k - 1);
            assert(indices@[k - 1] == 0);
            assert(v2 == (v + 1) % p);
            if v + 1 < p {
                vstd::arithmetic::div_mod::lemma_small_mod((v + 1) as nat, p as nat);
                assert((v + 1) * c < p * c) by (nonlinear_arith)
                    requires v + 1 < p, c > 0;
                assert(0 <= (v + 1) * c) by (nonlinear_arith)
                    requires 0 <= v, c > 0;
                vstd::arithmetic::div_mod::lemma_small_mod(((v + 1) * c) as nat, (p * c) as nat);
                assert(v * c + d + 1 == (v + 1) * c) by (nonlinear_arith)
                    requires d + 1 == c;
            } else {
                assert(v + 1 == p);
                vstd::arithmetic::div_mod::lemma_mod_self_0(p);
                assert(v * c + d + 1 == p * c) by (nonlinear_arith)
                    requires d + 1 == c, v + 1 == p;
                vstd::arithmetic::div_mod::lemma_mod_self_0(p * c);
            }
            assert(radix_value(indices@, counts@, k as int) == v2 * c);
            assert(radix_value(before, counts@, k as int) == v * c + d);
            assert(radix_product(counts@, k as int) == p * c);
            assert(wrapped == (v * c + d + 1 == p * c)) by {
                if v + 1 < p {
                    assert((v + 1) * c < p * c) by (nonlinear_arith)
                        requires v + 1 < p, c > 0;
                    assert(v * c + d + 1 == (v + 1) * c) by (nonlinear_arith)
                        requires d + 1 == c;
                }
            }
        }
        wrapped
    }
}

/// Advances the candidate indices to the next combination, the last source's
/// index turning fastest. Returns whether the counter wrapped around to the
/// first combination.
pub fn advance_indices(indices: &mut Vec<usize>, counts: &[usize]) -> (wrapped: bool)
    requires
        digits_ok(old(indices)@, counts@),
    ensures
        digits_ok(final(indices)@, counts@),
        radix_value(final(indices)@, counts@, counts@.len() as int) == (radix_value(
            old(indices)@,
            counts@,
            counts@.len() as int,
        ) + 1) % radix_product(counts@, counts@.len() as int),
        wrapped == (radix_value(old(indices)@, counts@, counts@.len() as int) + 1 == radix_product(
            counts@,
            counts@.len() as int,
        )),
{
    advance_prefix(indices, counts, counts.len())
}

/// Distinct combinations have distinct ranks: together with the step law of
/// `advance_indices`, counting through all ranks visits every combination of
/// candidates exactly once.
pub proof fn lemma_radix_value_injective(a: Seq<usize>, b: Seq<usize>, counts: Seq<usize>, k: int)
    requires
        digits_ok(a, counts),
        digits_ok(b, counts),
        0 <= k <= counts.len(),
        radix_value(a, counts, k) == radix_value(b, counts, k),
    ensures
        forall|j: int| 0 <= j < k ==> #[trigger] a[j] == b[j],
    decreases k,
{
    if k > 0 {
        let c = counts[k - 1] as int;
        let va = radix_value(a, counts, k - 1);
        let vb = radix_value(b, counts, k - 1);
        lemma_value_bound(a, counts, k - 1);
        lemma_value_bound(b, counts, k - 1);
        let x = radix_value(a, counts, k);
        vstd::arithmetic::div_mod::lemma_fundamental_div_mod_converse(x, c, va, a[k - 1] as int);
        vstd::arithmetic::div_mod::lemma_fundamental_div_mod_converse(x, c, vb, b[k - 1] as int);
        lemma_radix_value_injective(a, b, counts, k - 1);
    }
}

/// The first combination: every source at its first candidate.
pub fn first_indices(counts: &[usize]) -> (r: Vec<usize>)
    requires
        forall|j: int| 0 <= j < counts@.len() ==> #[trigger] counts@[j] > 0,
    ensures
        digits_ok(r@, counts@),
        radix_value(r@, counts@, counts@.len() as int) == 0,
{
    let mut r: Vec<usize> = Vec::new();
    let mut j: usize = 0;
    while j < counts.len()
        invariant
            j <= counts@.len(),
            r@.len() == j,
            forall|q: int| 0 <= q < j ==> #[trigger] r@[q] == 0,
            forall|q: int| 0 <= q < counts@.len() ==> #[trigger] counts@[q] > 0,
        decreases counts@.len() - j,
    {
        r.push(0);
        j = j + 1;
    }
    proof {
        lemma_zero_value(r@, counts@, counts@.len() as int);
    }
    r
}

proof fn lemma_zero_value(indices: Seq<usize>, counts: Seq<usize>, k: int)
    requires
        0 <= k <= indices.len(),
        forall|q: int| 0 <= q < k ==> #[trigger] indices[q] == 0,
    ensures
        radix_value(indices, counts, k) == 0,
    decreases k,
{
    if k > 0 {
        lemma_zero_value(indices, counts, k - 1);
    }
}

/// Number of combinations of sources that all have candidates, or `None`
/// where it exceeds `usize::MAX`.
pub fn combination_count(counts: &[usize]) -> (r: Option<usize>)
    requires
        forall|j: int| 0 <= j < counts@.len() ==> #[trigger] counts@[j] > 0,
    ensures
        match r {
            Some(n) => n == radix_product(counts@, counts@.len() as int),
            None => radix_product(counts@, counts@.len() as int) > usize::MAX,
        },
{
    let mut total: usize = 1;
    let mut j: usize = 0;
    while j < counts.len()
        invariant
            j <= counts@.len(),
            total == radix_product(counts@, j as int),
            forall|q: int| 0 <= q < counts@.len() ==> #[trigger] counts@[q] > 0,
        decreases counts@.len() - j,
    {
        match total.checked_mul(counts[j]) {
            Some(t) => {
                total = t;
            },
            None => {
                proof {
                    lemma_product_grows(counts@, j as int + 1, counts@.len() as int);
                }
                return None;
            },
        }
        j = j + 1;
    }
    Some(total)
}

proof fn lemma_product_grows(counts: Seq<usize>, a: int, b: int)
    requires
        0 <= a <= b <= counts.len(),
        radix_product(counts, a) > usize::MAX,
        forall|q: int| 0 <= q < counts.len() ==> #[trigger] counts[q] > 0,
    ensures
        radix_product(counts, b) > usize::MAX,
    decreases b - a,
{
    if a < b {
        assert(counts[a] > 0);
        assert(radix_product(counts, a + 1) >= radix_product(counts, a)) by (nonlinear_arith)
            requires
                radix_product(counts, a + 1) == radix_product(counts, a) * counts[a],
                counts[a] >= 1,
                radix_product(counts, a) > 0,
        ;
        lemma_product_grows(counts, a + 1, b);
    }
}

/// The offsets of the combination `indices` picks from each source's
/// candidates.
pub fn select_candidates(candidates: &[Vec<i128>], indices: &[usize]) -> (r: Vec<i128>)
    requires
        indices@.len() == candidates@.len(),
        forall|j: int| 0 <= j < indices@.len() ==> #[trigger] indices@[j] < candidates@[j]@.len(),
    ensures
        r@.len() == indices@.len(),
        forall|j: int| 0 <= j < r@.len() ==> #[trigger] r@[j] == candidates@[j]@[indices@[j] as int],
{
    let mut r: Vec<i128> = Vec::new();
    let mut j: usize = 0;
    while j < indices.len()
        invariant
            j <= indices@.len(),
            indices@.len() == candidates@.len(),
            forall|q: int| 0 <= q < indices@.len() ==> #[trigger] indices@[q] < candidates@[q]@.len(),
            r@.len() == j,
            forall|q: int| 0 <= q < j ==> #[trigger] r@[q] == candidates@[q]@[indices@[q] as int],
        decreases indices@.len() - j,
    {
        r.push(candidates[j][indices[j]]);
        j = j + 1;
    }
    r
}

/// Each source's first candidate, or 0 for a source without candidates.
pub fn first_candidates(candidates: &[Vec<i128>]) -> (r: Vec<i128>)
    ensures
        r@.len() == candidates@.len(),
        forall|j: int|
            0 <= j < r@.len() ==> #[trigger] r@[j] == if candidates@[j]@.len() > 0 {
                candidates@[j]@[0]
            } else {
                0
            },
{
    let mut r: Vec<i128> = Vec::new();
    let mut j: usize = 0;
    while j < candidates.len()
        invariant
            j <= candidates@.len(),
            r@.len() == j,
            forall|q: int|
                0 <= q < j ==> #[trigger] r@[q] == if candidates@[q]@.len() > 0 {
                    candidates@[q]@[0]
                } else {
                    0
                },
        decreases candidates@.len() - j,
    {
        let c = &candidates[j];
        let first: i128 = if c.len() > 0 { c[0] } else { 0 };
        r.push(first);
        j = j + 1;
    }
    r
}

} // verus!
