//! The combinatorial indexer: a bijective ranking of well-formed positions
//! onto the dense range `[0, mcomb(26, n)^2)` for an `n`-checker variant.
//!
//! Each side's placement of its `n` checkers over 26 ordered bins (borne-off,
//! the 24 points, its bar) is ranked with the combinatorial number system for
//! multisets; the two half-ranks are then combined base `mcomb(26, n)`.  The
//! rank of every well-formed position is proved to lie below the range bound,
//! and the ranking is proved injective over the checker-conservation
//! invariant, so distinct positions never share a table cell.

use vstd::prelude::*;
use crate::comb::{
    mcomb_spec, table_ok, lemma_mcomb_pascal, lemma_mcomb_pos, lemma_mcomb_nonneg,
    lemma_mcomb_mono, lemma_binom_le_pow2,
};
use crate::position::{
    PosV, Position, sum_prefix, seq_sum, all_nonneg, xcounts, ocounts, wf_v,
    lemma_sum_prefix_nonneg, lemma_element_le_sum_prefix, lemma_sum_prefix_congruence,
};

verus! {

/// Multiset-number-system rank of one side's bin counts.  At each bin but
/// the last, if `rem` checkers are still unplaced after the bin, the count of
/// lexicographically earlier placements, `mcomb(bins left, rem - 1)`, is
/// added.
pub open spec fn rank(counts: Seq<int>, k: int) -> int
    decreases counts.len()
{
    if counts.len() <= 1 {
        0
    } else {
        let rem = k - counts[0];
        (if rem > 0 {
            mcomb_spec(counts.len() as int, rem - 1)
        } else {
            0
        }) + rank(counts.drop_first(), rem)
    }
}

pub proof fn lemma_sum_prefix_drop_first(s: Seq<int>, i: int)
    requires
        1 <= i <= s.len(),
    ensures
        sum_prefix(s, i) == s[0] + sum_prefix(s.drop_first(), i - 1),
    decreases i
{
    if i == 1 {
        assert(sum_prefix(s, 0) == 0);
        assert(sum_prefix(s.drop_first(), 0) == 0);
    } else {
        lemma_sum_prefix_drop_first(s, i - 1);
    }
}

/// Range of the rank: over nonnegative counts summing to `k`, the rank is
/// nonnegative and below `mcomb(bins, k)`; when the first bin leaves `rem`
/// checkers unplaced, the rank falls in `[mcomb(bins, rem - 1), mcomb(bins,
/// rem))` — the interval that makes distinct first bins incomparable.
pub proof fn lemma_rank_bounds(counts: Seq<int>, k: int)
    requires
        counts.len() >= 1,
        all_nonneg(counts),
        seq_sum(counts) == k,
    ensures
        0 <= rank(counts, k),
        rank(counts, k) < mcomb_spec(counts.len() as int, k),
        counts.len() >= 2 ==> rank(counts, k) < mcomb_spec(counts.len() as int, k - counts[0]),
        counts.len() >= 2 && k - counts[0] > 0 ==> rank(counts, k) >= mcomb_spec(
            counts.len() as int,
            k - counts[0] - 1,
        ),
    decreases counts.len()
{
    let m = counts.len() as int;
    if counts.len() == 1 {
        assert(sum_prefix(counts, 0) == 0);
        assert(seq_sum(counts) == counts[0]);
        lemma_mcomb_pos(1, k);
    } else {
        let rest = counts.drop_first();
        let rem = k - counts[0];
        lemma_sum_prefix_drop_first(counts, m);
        assert(seq_sum(rest) == rem);
        assert(all_nonneg(rest));
        lemma_sum_prefix_nonneg(rest, rest.len() as int);
        assert(rem >= 0);
        lemma_rank_bounds(rest, rem);
        if rem == 0 {
            lemma_mcomb_pos(m - 1, 0);
            lemma_mcomb_pos(m, 0);
            assert(rank(rest, 0) < mcomb_spec(m - 1, 0));
            assert(mcomb_spec(m - 1, 0) == 1);
            assert(rank(counts, k) == 0);
            lemma_mcomb_mono(m, 0, k);
        } else {
            lemma_mcomb_pascal(m, rem);
            assert(rank(counts, k) == mcomb_spec(m, rem - 1) + rank(rest, rem));
            assert(rank(rest, rem) < mcomb_spec(m - 1, rem));
            assert(rank(counts, k) < mcomb_spec(m, rem));
            lemma_mcomb_mono(m, rem, k);
            lemma_mcomb_nonneg(m, rem - 1);
        }
    }
}

/// Injectivity of the per-side rank: two nonnegative count vectors of the
/// same length summing to the same checker total and sharing a rank are
/// equal bin for bin.
pub proof fn lemma_rank_injective(c1: Seq<int>, c2: Seq<int>, k: int)
    requires
        c1.len() == c2.len(),
        c1.len() >= 1,
        all_nonneg(c1),
        all_nonneg(c2),
        seq_sum(c1) == k,
        seq_sum(c2) == k,
        rank(c1, k) == rank(c2, k),
    ensures
        c1 =~= c2,
    decreases c1.len()
{
    let m = c1.len() as int;
    if c1.len() == 1 {
        assert(sum_prefix(c1, 0) == 0);
        assert(sum_prefix(c2, 0) == 0);
        assert(seq_sum(c1) == c1[0]);
        assert(seq_sum(c2) == c2[0]);
    } else {
        let rest1 = c1.drop_first();
        let rest2 = c2.drop_first();
        let r1 = k - c1[0];
        let r2 = k - c2[0];
        lemma_sum_prefix_drop_first(c1, m);
        lemma_sum_prefix_drop_first(c2, m);
        lemma_sum_prefix_nonneg(rest1, rest1.len() as int);
        lemma_sum_prefix_nonneg(rest2, rest2.len() as int);
        lemma_rank_bounds(c1, k);
        lemma_rank_bounds(c2, k);
        if c1[0] == c2[0] {
            lemma_rank_injective(rest1, rest2, r1);
            assert forall|j: int| 0 <= j < m implies c1[j] == c2[j] by {
                if j >= 1 {
                    assert(rest1[j - 1] == rest2[j - 1]);
                }
            }
            assert(c1 =~= c2);
        } else if r1 < r2 {
            // rank(c1) < mcomb(m, r1) <= mcomb(m, r2 - 1) <= rank(c2): impossible.
            lemma_mcomb_mono(m, r1, r2 - 1);
            assert(false);
        } else {
            lemma_mcomb_mono(m, r2, r1 - 1);
            assert(false);
        }
    }
}

/// The dense index of a position: the mover's half-rank in the high digits,
/// the opponent's in the low, base `mcomb(26, n)`.
pub open spec fn hash_spec(v: PosV) -> int {
    rank(xcounts(v), v.checkers) * mcomb_spec(26, v.checkers) + rank(ocounts(v), v.checkers)
}

/// The size of the index range for an `n`-checker variant: every two-sided
/// placement of `n` checkers over 26 bins per side.
pub open spec fn possible_spec(n: int) -> int {
    mcomb_spec(26, n) * mcomb_spec(26, n)
}

/// Every well-formed position's index lies in `[0, possible(n))`.
pub proof fn lemma_hash_bound(v: PosV)
    requires
        wf_v(v),
    ensures
        0 <= hash_spec(v) < possible_spec(v.checkers),
{
    lemma_rank_bounds(xcounts(v), v.checkers);
    lemma_rank_bounds(ocounts(v), v.checkers);
    let b = mcomb_spec(26, v.checkers);
    let rx = rank(xcounts(v), v.checkers);
    let ro = rank(ocounts(v), v.checkers);
    assert(rx * b + ro < b * b) by (nonlinear_arith)
        requires
            0 <= rx < b,
            0 <= ro < b,
    ;
    assert(rx * b + ro >= 0) by (nonlinear_arith)
        requires
            0 <= rx,
            0 <= ro,
            0 < b,
    ;
}

proof fn lemma_pairing_injective(a1: int, b1: int, a2: int, b2: int, base: int)
    requires
        0 <= a1,
        0 <= a2,
        0 <= b1 < base,
        0 <= b2 < base,
        a1 * base + b1 == a2 * base + b2,
    ensures
        a1 == a2,
        b1 == b2,
{
    assert(a1 == a2 && b1 == b2) by (nonlinear_arith)
        requires
            0 <= a1,
            0 <= a2,
            0 <= b1 < base,
            0 <= b2 < base,
            a1 * base + b1 == a2 * base + b2,
    ;
}

/// Injectivity of the indexer over the checker-conservation invariant:
/// two well-formed positions of the same variant with the same index are the
/// same position.
pub proof fn lemma_dbhash_injective(a: PosV, b: PosV)
    requires
        wf_v(a),
        wf_v(b),
        a.checkers == b.checkers,
        hash_spec(a) == hash_spec(b),
    ensures
        a == b,
{
    let n = a.checkers;
    lemma_rank_bounds(xcounts(a), n);
    lemma_rank_bounds(ocounts(a), n);
    lemma_rank_bounds(xcounts(b), n);
    lemma_rank_bounds(ocounts(b), n);
    lemma_pairing_injective(
        rank(xcounts(a), n),
        rank(ocounts(a), n),
        rank(xcounts(b), n),
        rank(ocounts(b), n),
        mcomb_spec(26, n),
    );
    lemma_rank_injective(xcounts(a), xcounts(b), n);
    lemma_rank_injective(ocounts(a), ocounts(b), n);
    // The two count vectors determine every field of the position.
    assert forall|j: int| 0 <= j < 26 implies a.pips[j] == b.pips[j] by {
        if j == 0 {
            assert(ocounts(a)[25] == ocounts(b)[25]);
        } else {
            assert(xcounts(a)[j] == xcounts(b)[j]);
            assert(ocounts(a)[j] == ocounts(b)[j]);
        }
    }
    assert(a.pips =~= b.pips);
    assert(xcounts(a)[0] == xcounts(b)[0]);
    assert(ocounts(a)[0] == ocounts(b)[0]);
    assert(a =~= b);
}

/// One side's bin counts as executable data, in ranking order.
fn side_counts(pos: &Position, mover: bool) -> (r: Vec<u8>)
    requires
        pos.wf(),
    ensures
        r@.len() == 26,
        r@.map_values(|c: u8| c as int) =~= (if mover {
            xcounts(pos@)
        } else {
            ocounts(pos@)
        }),
{
    proof {
        crate::position::lemma_wf_pip_bounds(pos@);
    }
    let ghost target = if mover {
        xcounts(pos@)
    } else {
        ocounts(pos@)
    };
    let mut r: Vec<u8> = Vec::new();
    if mover {
        r.push(pos.x_off);
    } else {
        r.push(pos.o_off);
    }
    let mut j: usize = 1;
    while j < 26
        invariant
            1 <= j <= 26,
            pos.wf(),
            -15 <= pos@.pips[0] <= 15,
            forall|t: int| 0 <= t < 26 ==> -(pos@.checkers) <= #[trigger] pos@.pips[t] <= pos@.checkers,
            target == (if mover {
                xcounts(pos@)
            } else {
                ocounts(pos@)
            }),
            r@.len() == j,
            forall|t: int| 0 <= t < j ==> #[trigger] r@[t] as int == target[t],
        decreases 26 - j
    {
        let p = pos.pips[j];
        proof {
            assert(pos@.pips[j as int] == pos.pips@[j as int] as int);
            assert(pos@.pips[0] == pos.pips@[0] as int);
        }
        let c: u8 = if mover {
            if p > 0 {
                p as u8
            } else {
                0
            }
        } else {
            if j <= 24 {
                if p < 0 {
                    (-p) as u8
                } else {
                    0
                }
            } else {
                let bar = pos.pips[0];
                if bar < 0 {
                    (-bar) as u8
                } else {
                    0
                }
            }
        };
        r.push(c);
        j = j + 1;
    }
    r
}

/// Per-side rank over 26 bins, computed from the precomputed coefficient
/// table.
fn side_rank(counts: &Vec<u8>, k: u8, table: &Vec<Vec<u128>>) -> (r: u128)
    requires
        counts@.len() == 26,
        1 <= k <= 15,
        table_ok(table@, 26, 15),
        seq_sum(counts@.map_values(|c: u8| c as int)) == k,
    ensures
        r as int == rank(counts@.map_values(|c: u8| c as int), k as int),
        (r as int) < mcomb_spec(26, k as int),
{
    let ghost cs = counts@.map_values(|c: u8| c as int);
    proof {
        assert(all_nonneg(cs));
        lemma_rank_bounds(cs, k as int);
        assert(cs.skip(0) =~= cs);
        lemma_binom_le_pow2(25 + k as int, k as int);
        vstd::arithmetic::power2::lemma2_to64();
        vstd::arithmetic::power2::lemma2_to64_rest();
        vstd::arithmetic::power2::lemma_pow2_strictly_increases(40, 64);
        vstd::arithmetic::power2::lemma_pow2_adds(40, 24);
        if 25 + k < 40 {
            vstd::arithmetic::power2::lemma_pow2_strictly_increases((25 + k) as nat, 40);
        }
    }
    let mut acc: u128 = 0;
    let mut rem: u8 = k;
    let mut i: usize = 0;
    while i < 25
        invariant
            i <= 25,
            counts@.len() == 26,
            1 <= k <= 15,
            table_ok(table@, 26, 15),
            cs == counts@.map_values(|c: u8| c as int),
            all_nonneg(cs),
            seq_sum(cs) == k,
            rem as int == seq_sum(cs.skip(i as int)),
            rem <= k,
            acc as int + rank(cs.skip(i as int), rem as int) == rank(cs, k as int),
            acc as int <= rank(cs, k as int),
            rank(cs, k as int) < mcomb_spec(26, k as int),
            mcomb_spec(26, k as int) <= vstd::arithmetic::power2::pow2(40),
            vstd::arithmetic::power2::pow2(40) < u128::MAX,
        decreases 25 - i
    {
        let ghost suffix = cs.skip(i as int);
        let c = counts[i];
        proof {
            assert(suffix[0] == cs[i as int]);
            assert(cs[i as int] == c as int);
            lemma_element_le_sum_prefix(suffix, 0, suffix.len() as int);
            assert(c as int <= seq_sum(suffix));
        }
        rem = rem - c;
        proof {
            lemma_sum_prefix_drop_first(suffix, suffix.len() as int);
            assert(suffix.drop_first() =~= cs.skip(i as int + 1));
            assert(seq_sum(cs.skip(i as int + 1)) == rem as int);
            lemma_rank_bounds(cs.skip(i as int + 1), rem as int);
            assert(rank(suffix, (rem + c) as int) == (if rem as int > 0 {
                mcomb_spec(26 - i as int, rem as int - 1)
            } else {
                0
            }) + rank(cs.skip(i as int + 1), rem as int));
        }
        if rem > 0 {
            let term = table[26 - i][(rem - 1) as usize];
            proof {
                assert(term as int == mcomb_spec(26 - i as int, rem as int - 1));
                assert(acc as int + term as int <= rank(cs, k as int));
            }
            acc = acc + term;
        }
        i = i + 1;
    }
    proof {
        assert(cs.skip(25).len() == 1);
        assert(rank(cs.skip(25), rem as int) == 0);
    }
    acc
}

/// Ranks a well-formed position into the dense range
/// `[0, mcomb(26, n)^2)`; pure and stateless given the coefficient table.
pub fn dbhash(pos: &Position, table: &Vec<Vec<u128>>) -> (r: u128)
    requires
        pos.wf(),
        table_ok(table@, 26, 15),
    ensures
        r as int == hash_spec(pos@),
        (r as int) < possible_spec(pos@.checkers),
{
    let cx = side_counts(pos, true);
    let co = side_counts(pos, false);
    proof {
        assert(seq_sum(cx@.map_values(|c: u8| c as int)) == pos@.checkers);
        assert(seq_sum(co@.map_values(|c: u8| c as int)) == pos@.checkers);
    }
    let rx = side_rank(&cx, pos.checkers, table);
    let ro = side_rank(&co, pos.checkers, table);
    let base = table[26][pos.checkers as usize];
    proof {
        assert(base as int == mcomb_spec(26, pos@.checkers));
        lemma_hash_bound(pos@);
        lemma_binom_le_pow2(25 + pos@.checkers, pos@.checkers);
        vstd::arithmetic::power2::lemma2_to64();
        vstd::arithmetic::power2::lemma2_to64_rest();
        vstd::arithmetic::power2::lemma_pow2_adds(40, 40);
        vstd::arithmetic::power2::lemma_pow2_strictly_increases(80, 128);
        vstd::arithmetic::power2::lemma_pow2_adds(64, 64);
        if 25 + pos@.checkers < 40 {
            vstd::arithmetic::power2::lemma_pow2_strictly_increases(
                (25 + pos@.checkers) as nat,
                40,
            );
        }
        let p40 = vstd::arithmetic::power2::pow2(40);
        assert((rx as int * base as int + ro as int) < p40 * p40) by (nonlinear_arith)
            requires
                0 <= rx as int, (rx as int) < base as int,
                0 <= ro as int, (ro as int) < base as int,
                base as int <= p40,
        ;
        assert(p40 * p40 == vstd::arithmetic::power2::pow2(80));
        assert(vstd::arithmetic::power2::pow2(128) == vstd::arithmetic::power2::pow2(64)
            * vstd::arithmetic::power2::pow2(64));
        assert(vstd::arithmetic::power2::pow2(64) * vstd::arithmetic::power2::pow2(64) - 1
            == u128::MAX) by (nonlinear_arith)
            requires
                vstd::arithmetic::power2::pow2(64) == 0x10000000000000000,
        ;
    }
    rx * base + ro
}

/// The number of dense indices for an `n`-checker variant.
pub fn num_possible(n: u8, table: &Vec<Vec<u128>>) -> (r: u128)
    requires
        1 <= n <= 15,
        table_ok(table@, 26, 15),
    ensures
        r as int == possible_spec(n as int),
{
    let base = table[26][n as usize];
    proof {
        lemma_binom_le_pow2(25 + n as int, n as int);
        vstd::arithmetic::power2::lemma2_to64();
        vstd::arithmetic::power2::lemma2_to64_rest();
        vstd::arithmetic::power2::lemma_pow2_adds(40, 40);
        vstd::arithmetic::power2::lemma_pow2_adds(64, 64);
        if 25 + n < 40 {
            vstd::arithmetic::power2::lemma_pow2_strictly_increases((25 + n) as nat, 40);
        }
        let p40 = vstd::arithmetic::power2::pow2(40);
        lemma_mcomb_nonneg(26, n as int);
        assert(base as int * base as int <= p40 * p40) by (nonlinear_arith)
            requires
                0 <= base as int <= p40,
        ;
        assert(p40 * p40 == vstd::arithmetic::power2::pow2(80));
        vstd::arithmetic::power2::lemma_pow2_strictly_increases(80, 128);
        assert(vstd::arithmetic::power2::pow2(64) * vstd::arithmetic::power2::pow2(64) - 1
            == u128::MAX) by (nonlinear_arith)
            requires
                vstd::arithmetic::power2::pow2(64) == 0x10000000000000000,
        ;
        assert(vstd::arithmetic::power2::pow2(128) == vstd::arithmetic::power2::pow2(64)
            * vstd::arithmetic::power2::pow2(64));
    }
    base * base
}

} // verus!
