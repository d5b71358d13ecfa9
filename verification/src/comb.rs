//! Exact binomial and multiset coefficients, and the dense lookup table the
//! position indexer reads.
//!
//! `binom` is the Pascal-triangle definition of the binomial coefficient and
//! serves as the mathematical reference count; the executable `comb` computes
//! it through the multiplicative recurrence and is proved equal to `binom`.

use vstd::prelude::*;
use vstd::arithmetic::power2::pow2;

verus! {

/// Binomial coefficient C(n, k), defined by Pascal's rule.
/// `binom(n, 0) == 1` for every `n`; `binom(n, k) == 0` when `k > n >= 0`.
pub open spec fn binom(n: int, k: int) -> int
    decreases n
{
    if k < 0 {
        0
    } else if k == 0 {
        1
    } else if n <= 0 {
        0
    } else {
        binom(n - 1, k - 1) + binom(n - 1, k)
    }
}

/// Multiset coefficient: the number of ways to distribute `k`
/// indistinguishable items into `n` distinguishable bins.
pub open spec fn mcomb_spec(n: int, k: int) -> int {
    binom(n + k - 1, k)
}

pub proof fn lemma_binom_nonneg(n: int, k: int)
    ensures
        binom(n, k) >= 0,
    decreases n
{
    if k <= 0 || n <= 0 {
    } else {
        lemma_binom_nonneg(n - 1, k - 1);
        lemma_binom_nonneg(n - 1, k);
    }
}

pub proof fn lemma_binom_zero(n: int, k: int)
    requires
        0 <= n < k,
    ensures
        binom(n, k) == 0,
    decreases n
{
    if n > 0 {
        lemma_binom_zero(n - 1, k - 1);
        lemma_binom_zero(n - 1, k);
    }
}

pub proof fn lemma_binom_pos(n: int, k: int)
    requires
        0 <= k <= n,
    ensures
        binom(n, k) >= 1,
    decreases n
{
    if k > 0 {
        lemma_binom_pos(n - 1, k - 1);
        lemma_binom_nonneg(n - 1, k);
    }
}

pub proof fn lemma_binom_diag(n: int)
    requires
        n >= 0,
    ensures
        binom(n, n) == 1,
    decreases n
{
    if n > 0 {
        lemma_binom_diag(n - 1);
        lemma_binom_zero(n - 1, n);
    }
}

/// The absorption identity `k * C(n, k) == n * C(n-1, k-1)`, which makes the
/// multiplicative recurrence of `comb` an exact integer division.
pub proof fn lemma_binom_absorb(n: int, k: int)
    requires
        1 <= k <= n,
    ensures
        k * binom(n, k) == n * binom(n - 1, k - 1),
    decreases n
{
    if k == n {
        lemma_binom_diag(n);
        lemma_binom_diag(n - 1);
        lemma_binom_zero(n - 1, n);
        assert(k * binom(n, k) == n * binom(n - 1, k - 1)) by (nonlinear_arith)
            requires
                binom(n, k) == 1 && binom(n - 1, k - 1) == 1 && k == n,
        ;
    } else if k == 1 {
        // binom(n, 1) == n and binom(n - 1, 0) == 1.
        lemma_binom_first(n);
    } else {
        // k * C(n,k) = k*C(n-1,k) + k*C(n-1,k-1)
        lemma_binom_absorb(n - 1, k);        // k*C(n-1,k) == (n-1)*C(n-2,k-1)
        lemma_binom_absorb(n - 1, k - 1);    // (k-1)*C(n-1,k-1) == (n-1)*C(n-2,k-2)
        assert(binom(n - 1, k - 1) == binom(n - 2, k - 2) + binom(n - 2, k - 1));
        assert(k * binom(n, k) == k * binom(n - 1, k) + k * binom(n - 1, k - 1))
            by (nonlinear_arith)
            requires
                binom(n, k) == binom(n - 1, k - 1) + binom(n - 1, k),
        ;
        assert(k * binom(n - 1, k - 1) == (k - 1) * binom(n - 1, k - 1) + binom(n - 1, k - 1))
            by (nonlinear_arith);
        assert((n - 1) * binom(n - 2, k - 1) + (n - 1) * binom(n - 2, k - 2)
            == (n - 1) * binom(n - 1, k - 1)) by (nonlinear_arith)
            requires
                binom(n - 1, k - 1) == binom(n - 2, k - 2) + binom(n - 2, k - 1),
        ;
        assert((n - 1) * binom(n - 1, k - 1) + binom(n - 1, k - 1) == n * binom(n - 1, k - 1))
            by (nonlinear_arith);
    }
}

pub proof fn lemma_binom_first(n: int)
    requires
        n >= 0,
    ensures
        binom(n, 1) == n,
    decreases n
{
    if n > 0 {
        lemma_binom_first(n - 1);
        assert(binom(n, 1) == binom(n - 1, 0) + binom(n - 1, 1));
        assert(binom(n - 1, 0) == 1);
    } else {
        assert(binom(0, 1) == 0);
    }
}

/// `C(n, k) <= 2^n`, the bound that keeps the 128-bit arithmetic exact.
pub proof fn lemma_binom_le_pow2(n: int, k: int)
    requires
        n >= 0,
    ensures
        binom(n, k) <= pow2(n as nat),
    decreases n
{
    vstd::arithmetic::power2::lemma_pow2_pos(n as nat);
    if k <= 0 || n == 0 {
        if n == 0 {
            vstd::arithmetic::power2::lemma2_to64();
        }
    } else {
        lemma_binom_le_pow2(n - 1, k - 1);
        lemma_binom_le_pow2(n - 1, k);
        vstd::arithmetic::power2::lemma_pow2_unfold(n as nat);
    }
}

/// Pascal's rule restated for the multiset coefficient.
pub proof fn lemma_mcomb_pascal(n: int, k: int)
    requires
        n >= 1,
        k >= 1,
    ensures
        mcomb_spec(n, k) == mcomb_spec(n - 1, k) + mcomb_spec(n, k - 1),
{
    if n == 1 {
        lemma_binom_zero(k - 1, k);
    }
}

pub proof fn lemma_mcomb_pos(n: int, k: int)
    requires
        n >= 1,
        k >= 0,
    ensures
        mcomb_spec(n, k) >= 1,
{
    lemma_binom_pos(n + k - 1, k);
}

pub proof fn lemma_mcomb_nonneg(n: int, k: int)
    ensures
        mcomb_spec(n, k) >= 0,
{
    lemma_binom_nonneg(n + k - 1, k);
}

/// The multiset coefficient is monotone in the item count.
pub proof fn lemma_mcomb_mono(n: int, k1: int, k2: int)
    requires
        n >= 1,
        0 <= k1 <= k2,
    ensures
        mcomb_spec(n, k1) <= mcomb_spec(n, k2),
    decreases k2 - k1
{
    if k1 < k2 {
        lemma_mcomb_mono(n, k1, k2 - 1);
        lemma_mcomb_pascal(n, k2);
        lemma_mcomb_nonneg(n - 1, k2);
    }
}

/// Exact binomial coefficient over 128-bit integers.
///
/// Matches the Pascal-rule reference count on every input the machine width
/// admits; in particular `comb(n, 0) == 1` for every `n` and
/// `comb(n, k) == 0` whenever `k > n`.
pub fn comb(n: usize, k: usize) -> (r: u128)
    requires
        n <= 64,
    ensures
        r == binom(n as int, k as int),
    decreases n
{
    if k == 0 {
        1
    } else if n == 0 || n < k {
        proof {
            if n > 0 {
                lemma_binom_zero(n as int, k as int);
            }
        }
        0
    } else if n == k {
        proof {
            lemma_binom_diag(n as int);
        }
        1
    } else {
        let prev = comb(n - 1, k - 1);
        proof {
            lemma_binom_le_pow2(n as int - 1, k as int - 1);
            vstd::arithmetic::power2::lemma2_to64();
            vstd::arithmetic::power2::lemma2_to64_rest();
            if n - 1 < 63 {
                vstd::arithmetic::power2::lemma_pow2_strictly_increases((n - 1) as nat, 63);
            }
            assert(prev <= pow2(63));
            assert((n as int) * prev <= 64 * pow2(63)) by (nonlinear_arith)
                requires
                    0 <= prev <= pow2(63),
                    0 < n <= 64,
            ;
            assert(64 * pow2(63) < 0x1_0000_0000_0000_0000_0000_0000_0000_0000);
            lemma_binom_absorb(n as int, k as int);
            lemma_binom_nonneg(n as int, k as int);
            vstd::arithmetic::div_mod::lemma_div_multiples_vanish(
                binom(n as int, k as int),
                k as int,
            );
        }
        ((n as u128) * prev) / (k as u128)
    }
}

/// Multiset coefficient `mcomb(n, k) == comb(n + k - 1, k)`.
pub fn mcomb(n: usize, k: usize) -> (r: u128)
    requires
        1 <= n + k,
        n + k <= 65,
    ensures
        r == mcomb_spec(n as int, k as int),
{
    comb(n + k - 1, k)
}

/// The table the indexer consumes: `t[n][k] == mcomb(n, k)` densely.
pub open spec fn table_ok(t: Seq<Vec<u128>>, max_n: int, max_k: int) -> bool {
    &&& t.len() == max_n + 1
    &&& forall|n: int| 0 <= n <= max_n ==> (#[trigger] t[n])@.len() == max_k + 1
    &&& forall|n: int, k: int|
        0 <= n <= max_n && 0 <= k <= max_k ==> #[trigger] t[n]@[k] == mcomb_spec(n, k)
}

/// Precomputes the dense `mcomb` table by direct evaluation, enabling O(1)
/// coefficient lookups while ranking positions.
pub fn precompute_mcomb(max_n: usize, max_k: usize) -> (r: Vec<Vec<u128>>)
    requires
        max_n + max_k <= 64,
    ensures
        table_ok(r@, max_n as int, max_k as int),
{
    let mut rows: Vec<Vec<u128>> = Vec::new();
    let mut n: usize = 0;
    while n <= max_n
        invariant
            n <= max_n + 1,
            max_n + max_k <= 64,
            rows@.len() == n,
            forall|i: int| 0 <= i < n ==> (#[trigger] rows@[i])@.len() == max_k + 1,
            forall|i: int, k: int|
                0 <= i < n && 0 <= k <= max_k ==> #[trigger] rows@[i]@[k] == mcomb_spec(i, k),
        decreases max_n + 1 - n
    {
        let mut row: Vec<u128> = Vec::new();
        let mut k: usize = 0;
        while k <= max_k
            invariant
                k <= max_k + 1,
                n <= max_n,
                max_n + max_k <= 64,
                row@.len() == k,
                forall|j: int| 0 <= j < k ==> #[trigger] row@[j] == mcomb_spec(n as int, j),
            decreases max_k + 1 - k
        {
            let v: u128 = if k == 0 {
                1
            } else if n == 0 {
                proof {
                    lemma_binom_zero(k as int - 1, k as int);
                }
                0
            } else {
                mcomb(n, k)
            };
            row.push(v);
            k = k + 1;
        }
        rows.push(row);
        n = n + 1;
    }
    rows
}

} // verus!
