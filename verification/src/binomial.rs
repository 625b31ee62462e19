//! Binomial coefficients, the combinatorial ground for the Bernstein basis.

use vstd::arithmetic::power2::{lemma_pow2_pos, lemma_pow2_unfold, pow2};
use vstd::prelude::*;

verus! {

/// Number of ways to choose `k` items among `n`, by Pascal's rule.
pub open spec fn binom(n: nat, k: nat) -> nat
    decreases n,
{
    if k == 0 {
        1
    } else if k > n {
        0
    } else {
        binom((n - 1) as nat, (k - 1) as nat) + binom((n - 1) as nat, k)
    }
}

/// Choosing everything can be done in exactly one way.
pub proof fn lemma_binom_full(n: nat)
    ensures
        binom(n, n) == 1,
    decreases n,
{
    if n > 0 {
        lemma_binom_full((n - 1) as nat);
        assert(binom((n - 1) as nat, n) == 0);
    }
}

/// Choosing a single item among `n` can be done in `n` ways.
pub proof fn lemma_binom_one(n: nat)
    ensures
        binom(n, 1) == n,
    decreases n,
{
    if n > 0 {
        lemma_binom_one((n - 1) as nat);
        assert(binom((n - 1) as nat, 0) == 1);
    }
}

/// Every binomial coefficient is bounded by the corresponding power of two.
pub proof fn lemma_binom_le_pow2(n: nat, k: nat)
    ensures
        binom(n, k) <= pow2(n),
    decreases n,
{
    lemma_pow2_pos(n);
    if 0 < k <= n {
        lemma_binom_le_pow2((n - 1) as nat, (k - 1) as nat);
        lemma_binom_le_pow2((n - 1) as nat, k);
        lemma_pow2_unfold(n);
    }
}

/// The absorption identity: stepping from column `k` to column `k + 1`
/// multiplies by `n - k` and divides exactly by `k + 1`.
pub proof fn lemma_binom_absorb(n: nat, k: nat)
    requires
        k <= n,
    ensures
        binom(n, k) * (n - k) == binom(n, k + 1) * (k + 1),
    decreases n,
{
    if k == n {
        assert(binom(n, k + 1) == 0);
    } else if k == 0 {
        lemma_binom_one(n);
        assert(binom(n, 0) == 1);
        assert(binom(n, k) * (n - k) == binom(n, k + 1) * (k + 1)) by (nonlinear_arith)
            requires
                k == 0,
                binom(n, k) == 1,
                binom(n, k + 1) == n,
        ;
    } else {
        let a = binom((n - 1) as nat, (k - 1) as nat);
        let b = binom((n - 1) as nat, k);
        let c = binom((n - 1) as nat, (k + 1) as nat);
        lemma_binom_absorb((n - 1) as nat, (k - 1) as nat);
        lemma_binom_absorb((n - 1) as nat, k);
        assert(binom(n, k) == a + b);
        assert(binom(n, k + 1) == b + c);
        assert((a + b) * (n - k) == (b + c) * (k + 1)) by (nonlinear_arith)
            requires
                a * (n - k) == b * k,
                b * (n - 1 - k) == c * (k + 1),
                0 <= k < n,
        ;
    }
}

/// Symmetry of the binomial coefficient: choosing `k` items is the same
/// as leaving out `n - k` of them.
pub proof fn lemma_binomial_symmetry(n: nat, k: nat)
    requires
        k <= n,
    ensures
        binom(n, k) == binom(n, (n - k) as nat),
    decreases n,
{
    if k == 0 || k == n {
        lemma_binom_full(n);
    } else {
        lemma_binomial_symmetry((n - 1) as nat, (k - 1) as nat);
        lemma_binomial_symmetry((n - 1) as nat, k);
        assert(binom(n, (n - k) as nat) == binom((n - 1) as nat, (n - k - 1) as nat) + binom(
            (n - 1) as nat,
            (n - k) as nat,
        ));
    }
}

/// The two edge columns of every row hold exactly one.
pub proof fn lemma_binomial_edges(n: nat)
    ensures
        binom(n, 0) == 1,
        binom(n, n) == 1,
{
    lemma_binom_full(n);
}

/// Above the diagonal every binomial coefficient vanishes.
pub proof fn lemma_binomial_above_diagonal(n: nat, k: nat)
    requires
        k > n,
    ensures
        binom(n, k) == 0,
{
}

/// Iterative product-and-divide computation of the binomial coefficient.
/// Every intermediate division is exact, by the absorption identity.
pub fn binomial_coefficient(n: usize, k: usize) -> (r: usize)
    requires
        k > n || pow2(n as nat) * n <= usize::MAX,
    ensures
        r == binom(n as nat, k as nat),
{
    if k > n {
        return 0;
    }
    let mut result: usize = 1;
    let mut i: usize = 0;
    while i < k
        invariant
            i <= k <= n,
            pow2(n as nat) * n <= usize::MAX,
            result == binom(n as nat, i as nat),
        decreases k - i,
    {
        proof {
            lemma_binom_le_pow2(n as nat, i as nat);
            lemma_binom_absorb(n as nat, i as nat);
            assert(result * (n - i) <= pow2(n as nat) * n) by (nonlinear_arith)
                requires
                    result <= pow2(n as nat),
                    0 <= n - i <= n,
            ;
        }
        let next = result * (n - i);
        proof {
            assert(next == binom(n as nat, (i + 1) as nat) * (i + 1));
            vstd::arithmetic::div_mod::lemma_div_by_multiple(
                binom(n as nat, (i + 1) as nat) as int,
                (i + 1) as int,
            );
        }
        result = next / (i + 1);
        i = i + 1;
    }
    result
}

} // verus!
