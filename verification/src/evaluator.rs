//! Position evaluators: the evaluator contract, the exact-database evaluator
//! that reads the solver's converged table, and a random evaluator.

use vstd::prelude::*;
use crate::comb::{table_ok, precompute_mcomb};
use crate::position::{Position, wf_v, state_spec};
use crate::probabilities::{Probabilities, probs_ok, equity_spec};
use crate::index::{hash_spec, possible_spec};
use crate::index::num_possible;
use crate::enumerate::{hash_u64, succ_at};
use crate::movegen::successors;
use crate::equity::SCALE;

verus! {

/// Something that can judge a position: returns an outcome distribution for
/// any position it declares itself fit for.
pub trait Evaluator: Sized {
    /// The positions this evaluator accepts.
    spec fn fits(&self, pos: Position) -> bool;

    /// A cubeless evaluation of the position.
    fn eval(&self, pos: &Position) -> (r: Probabilities)
        requires
            self.fits(*pos),
        ensures
            probs_ok(r),
    ;
}

/// The exact evaluator for the three-checker variant: a lookup into the
/// solver's converged outcome table, keyed by dense position index.
pub struct HyperEvaluator {
    pub probs: Vec<Probabilities>,
    pub table: Vec<Vec<u128>>,
}

impl HyperEvaluator {
    /// The table covers the whole index range of the three-checker variant
    /// and holds only genuine probabilities.
    pub open spec fn wf(&self) -> bool {
        &&& self.probs@.len() == possible_spec(3)
        &&& table_ok(self.table@, 26, 15)
        &&& forall|j: int| 0 <= j < self.probs@.len() ==> probs_ok(#[trigger] self.probs@[j])
    }

    /// Wraps a full outcome table; rejects one whose record count is not the
    /// variant's index-range size or that holds an out-of-range record.
    pub fn new(probs: Vec<Probabilities>) -> (r: Option<HyperEvaluator>)
        ensures
            match r {
                Some(h) => {
                    &&& h.wf()
                    &&& h.probs@ == probs@
                },
                None => probs@.len() != possible_spec(3) || exists|j: int|
                    0 <= j < probs@.len() && !probs_ok(#[trigger] probs@[j]),
            },
    {
        let table = precompute_mcomb(26, 15);
        let m = num_possible(3, &table);
        if (probs.len() as u128) != m {
            return None;
        }
        let mut j: usize = 0;
        while j < probs.len()
            invariant
                j <= probs@.len(),
                forall|t: int| 0 <= t < j ==> probs_ok(#[trigger] probs@[t]),
        decreases probs@.len() - j
        {
            let p = &probs[j];
            if p.win_n < 0 || p.win_n > SCALE || p.win_g < 0 || p.win_g > SCALE || p.win_b < 0
                || p.win_b > SCALE || p.lose_n < 0 || p.lose_n > SCALE || p.lose_g < 0
                || p.lose_g > SCALE || p.lose_b < 0 || p.lose_b > SCALE {
                return None;
            }
            j = j + 1;
        }
        Some(HyperEvaluator { probs, table })
    }

    /// The stored outcome distribution of a position.
    pub fn eval_at(&self, pos: &Position) -> (r: Probabilities)
        requires
            self.wf(),
            pos.wf(),
            pos@.checkers == 3,
        ensures
            r == self.probs@[hash_spec(pos@)],
            probs_ok(r),
    {
        let m = self.probs.len();
        let h = hash_u64(pos, &self.table);
        proof {
            assert((h as int) < m as int);
        }
        self.probs[h as usize]
    }

    /// The successor of `pos` under one roll whose stored equity is worst
    /// for the opponent: the mover's database-optimal move.  Among successors
    /// of equal stored equity the earliest in generation order is returned.
    pub fn best_position(&self, pos: &Position, d1: u8, d2: u8) -> (r: Position)
        requires
            self.wf(),
            pos.wf(),
            pos@.checkers == 3,
            (state_spec(pos@) is Ongoing),
            1 <= d1 <= 6,
            1 <= d2 <= 6,
        ensures
            exists|c: int|
                0 <= c < succ_at(3, pos@, (d1 as int, d2 as int)).len() && r@ == #[trigger] succ_at(
                    3,
                    pos@,
                    (d1 as int, d2 as int),
                )[c] && (forall|c2: int|
                    0 <= c2 < c ==> equity_spec(
                        self.probs@[hash_spec(#[trigger] succ_at(3, pos@, (d1 as int, d2 as int))[
                            c2
                        ])],
                    ) > equity_spec(self.probs@[hash_spec(r@)])),
            r.wf() && r@.checkers == 3,
            forall|c: int|
                0 <= c < succ_at(3, pos@, (d1 as int, d2 as int)).len() ==> equity_spec(
                    self.probs@[hash_spec(r@)],
                ) <= equity_spec(
                    self.probs@[hash_spec(#[trigger] succ_at(3, pos@, (d1 as int, d2 as int))[c])],
                ),
    {
        let cs = successors(pos, d1, d2);
        let ghost gss = succ_at(3, pos@, (d1 as int, d2 as int));
        proof {
            assert(cs@.map_values(|p: Position| p@) == gss);
            assert(cs@.map_values(|p: Position| p@)[0] == gss[0]);
        }
        let mut best = cs[0].clone();
        let mut best_eq = self.eval_at(&cs[0]).equity();
        let ghost mut bi: int = 0;
        let mut c: usize = 1;
        while c < cs.len()
            invariant
                1 <= c <= cs@.len(),
                self.wf(),
                cs@.map_values(|p: Position| p@) == gss,
                forall|t: int|
                    0 <= t < cs@.len() ==> wf_v(#[trigger] cs@[t]@) && cs@[t]@.checkers == 3,
                best.wf() && best@.checkers == 3,
                0 <= bi < c,
                best@ == gss[bi],
                forall|t: int|
                    0 <= t < bi ==> equity_spec(self.probs@[hash_spec(#[trigger] gss[t])])
                        > best_eq as int,
                best_eq as int == equity_spec(self.probs@[hash_spec(best@)]),
                forall|t: int|
                    0 <= t < c ==> best_eq as int <= equity_spec(
                        self.probs@[hash_spec(#[trigger] gss[t])],
                    ),
            decreases cs@.len() - c
        {
            proof {
                assert(cs@.map_values(|p: Position| p@)[c as int] == gss[c as int]);
            }
            let cand = &cs[c];
            let eq = self.eval_at(cand).equity();
            if eq < best_eq {
                best = cand.clone();
                best_eq = eq;
                proof {
                    bi = c as int;
                }
            }
            c = c + 1;
        }
        best
    }
}

impl Evaluator for HyperEvaluator {
    open spec fn fits(&self, pos: Position) -> bool {
        &&& self.wf()
        &&& pos.wf()
        &&& pos@.checkers == 3
    }

    fn eval(&self, pos: &Position) -> (r: Probabilities) {
        self.eval_at(pos)
    }
}

/// Relies on fastrand::u64: a pseudorandom number; nothing is assumed of its
/// value, so callers hold for every outcome.
#[verifier::external_body]
fn random_u64() -> (r: u64) {
    fastrand::u64(..)
}

/// An evaluator that answers with a random outcome distribution; each call
/// returns different values.
pub struct RandomEvaluator {}

impl RandomEvaluator {
    pub fn new() -> (r: RandomEvaluator) {
        RandomEvaluator {  }
    }

    /// Draws a random distribution.  Whatever the generator returns, the six
    /// components are genuine probabilities and sum to exactly `SCALE`.
    pub fn random_probabilities(&self) -> (r: Probabilities)
        ensures
            probs_ok(r),
            r.win_n + r.win_g + r.win_b + r.lose_n + r.lose_g + r.lose_b == SCALE,
    {
        let mut draws: Vec<u64> = Vec::new();
        let mut i: usize = 0;
        while i < 6
            invariant
                i <= 6,
                draws@.len() == i,
                forall|t: int| 0 <= t < i ==> 1 <= #[trigger] draws@[t] <= 0x10000,
            decreases 6 - i
        {
            let v = random_u64();
            let low = v & 0xFFFF;
            proof {
                assert(low <= 0xFFFF) by (bit_vector)
                    requires
                        low == v & 0xFFFF,
                ;
            }
            draws.push(low + 1);
            i = i + 1;
        }
        let total: u64 = draws[0] + draws[1] + draws[2] + draws[3] + draws[4] + draws[5];
        proof {
            assert(prefix_sum(draws@, 0) == 0);
            assert(prefix_sum(draws@, 1) == draws@[0]);
            assert(prefix_sum(draws@, 2) == prefix_sum(draws@, 1) + draws@[1]);
            assert(prefix_sum(draws@, 3) == prefix_sum(draws@, 2) + draws@[2]);
            assert(prefix_sum(draws@, 4) == prefix_sum(draws@, 3) + draws@[3]);
            assert(prefix_sum(draws@, 5) == prefix_sum(draws@, 4) + draws@[4]);
            assert(prefix_sum(draws@, 6) == prefix_sum(draws@, 5) + draws@[5]);
            assert(prefix_sum(draws@, 6) == total);
        }
        // Cumulative rounding: the k-th cut point is the scaled k-th prefix
        // sum, so the differences are nonnegative and telescope to SCALE.
        let mut cuts: Vec<u64> = Vec::new();
        let mut prefix: u64 = 0;
        let mut k: usize = 0;
        proof {
            vstd::arithmetic::div_mod::lemma_div_pos_is_pos(0, total as int);
        }
        while k < 6
            invariant
                k <= 6,
                cuts@.len() == k,
                6 <= total <= 0x60000,
                forall|t: int| 0 <= t < 6 ==> 1 <= #[trigger] draws@[t] <= 0x10000,
                draws@.len() == 6,
                prefix as int == prefix_sum(draws@, k as int),
                prefix <= total,
                k == 6 ==> prefix == total,
                prefix_sum(draws@, 6) == total,
                forall|t: int|
                    0 <= t < k ==> #[trigger] cuts@[t] as int == (prefix_sum(draws@, t + 1) * (
                    SCALE as int)) / (total as int),
                forall|t: int| 0 <= t < k ==> #[trigger] cuts@[t] <= SCALE as u64,
                forall|t1: int, t2: int| 0 <= t1 < t2 < k ==> cuts@[t1] <= cuts@[t2],
            decreases 6 - k
        {
            proof {
                lemma_prefix_sum_mono(draws@, k as int + 1, 6);
            }
            prefix = prefix + draws[k];
            let cut = ((prefix as u128 * SCALE as u128) / (total as u128)) as u64;
            proof {
                let p = prefix as int;
                let s = SCALE as int;
                let tt = total as int;
                lemma_div_pos_le(p * s, tt, s, p);
                assert(cut as int == (p * s) / tt);
                assert forall|t1: int| 0 <= t1 < k implies cuts@[t1] <= cut by {
                    lemma_prefix_sum_mono(draws@, t1 + 1, k as int + 1);
                    assert(prefix_sum(draws@, t1 + 1) * s <= p * s) by (nonlinear_arith)
                        requires
                            prefix_sum(draws@, t1 + 1) <= p,
                            s >= 0,
                    ;
                    lemma_div_mono_num(prefix_sum(draws@, t1 + 1) * s, p * s, tt);
                }
            }
            cuts.push(cut);
            k = k + 1;
        }
        proof {
            vstd::arithmetic::div_mod::lemma_div_multiples_vanish(
                SCALE as int,
                total as int,
            );
            assert(total as int * SCALE as int == SCALE as int * total as int)
                by (nonlinear_arith);
            assert(cuts@[5] == SCALE as u64);
        }
        let r = Probabilities {
            win_n: cuts[0] as i64,
            win_g: (cuts[1] - cuts[0]) as i64,
            win_b: (cuts[2] - cuts[1]) as i64,
            lose_n: (cuts[3] - cuts[2]) as i64,
            lose_g: (cuts[4] - cuts[3]) as i64,
            lose_b: (cuts[5] - cuts[4]) as i64,
        };
        r
    }
}

impl Evaluator for RandomEvaluator {
    open spec fn fits(&self, pos: Position) -> bool {
        true
    }

    fn eval(&self, pos: &Position) -> (r: Probabilities) {
        self.random_probabilities()
    }
}

/// Sum of the first `k` draws.
pub open spec fn prefix_sum(s: Seq<u64>, k: int) -> int
    decreases k
{
    if k <= 0 {
        0
    } else {
        prefix_sum(s, k - 1) + s[k - 1]
    }
}

proof fn lemma_prefix_sum_mono(s: Seq<u64>, k1: int, k2: int)
    requires
        0 <= k1 <= k2,
    ensures
        prefix_sum(s, k1) <= prefix_sum(s, k2),
    decreases k2 - k1
{
    if k1 < k2 {
        lemma_prefix_sum_mono(s, k1, k2 - 1);
    }
}

/// `a <= cap * b` gives `a / b <= cap`.
proof fn lemma_div_pos_le(a: int, b: int, cap: int, num: int)
    requires
        0 < b,
        0 <= num <= b,
        0 <= cap,
        a == num * cap,
    ensures
        0 <= a / b <= cap,
{
    vstd::arithmetic::div_mod::lemma_div_pos_is_pos(a, b);
    assert(a <= b * cap) by (nonlinear_arith)
        requires
            a == num * cap,
            num <= b,
            0 <= cap,
    ;
    vstd::arithmetic::div_mod::lemma_div_is_ordered(a, b * cap, b);
    vstd::arithmetic::div_mod::lemma_div_multiples_vanish(cap, b);
}

/// Division by a positive divisor is monotone in the numerator.
proof fn lemma_div_mono_num(a1: int, a2: int, b: int)
    requires
        a1 <= a2,
        0 < b,
    ensures
        a1 / b <= a2 / b,
{
    vstd::arithmetic::div_mod::lemma_div_is_ordered(a1, a2, b);
}

} // verus!
