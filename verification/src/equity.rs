//! The equity table and the synchronous Bellman value-iteration engine.
//!
//! Equities are fixed-point integers: one point of game value is `SCALE`
//! units, and every cell stays within three points either way (the largest
//! outcome is a backgammon).  A cell always holds the expected outcome from
//! the perspective of the side to move there; successor cells are stored
//! from the opponent's perspective, so the update minimizes over them and
//! negates the weighted average (the zero-sum flip back to the mover).
//! Each sweep reads a frozen previous table and writes a fresh one, so the
//! new table is a pure function of the old one and the transition data;
//! cells without a transition entry — every game-over cell among them — are
//! never rewritten.

use vstd::prelude::*;
use vstd::arithmetic::div_mod::{
    lemma_div_is_ordered, lemma_div_multiples_vanish, lemma_div_pos_is_pos,
};

verus! {

/// Fixed-point scale: one point of game value.
pub const SCALE: i64 = 1000000;

/// One roll's transitions: its multiplicity and the table indices of the
/// candidate successors.
pub struct RollEntry {
    pub weight: u8,
    pub children: Vec<u64>,
}

/// One ongoing position's transitions: its own table index and the
/// transition list of every roll.
pub struct PosEntry {
    pub index: u64,
    pub rolls: Vec<RollEntry>,
}

/// A roll entry against a table of `m` cells: at least one candidate, every
/// candidate index in range, and a two-die multiplicity.
pub open spec fn roll_entry_ok(e: RollEntry, m: int) -> bool {
    &&& 1 <= e.children.len()
    &&& 1 <= e.weight <= 2
    &&& forall|c: int| 0 <= c < e.children@.len() ==> (#[trigger] e.children@[c]) < m
}

/// A position entry against a table of `m` cells: index in range and one to
/// twenty-one roll entries.
pub open spec fn pos_entry_ok(pe: PosEntry, m: int) -> bool {
    &&& pe.index < m
    &&& 1 <= pe.rolls@.len() <= 21
    &&& forall|r: int| 0 <= r < pe.rolls@.len() ==> roll_entry_ok(#[trigger] pe.rolls@[r], m)
}

/// A transition table against `m` cells, with pairwise distinct indices.
pub open spec fn entries_ok(entries: Seq<PosEntry>, m: int) -> bool {
    &&& forall|e: int| 0 <= e < entries.len() ==> pos_entry_ok(#[trigger] entries[e], m)
    &&& forall|e1: int, e2: int|
        0 <= e1 < e2 < entries.len() ==> entries[e1].index != entries[e2].index
}

/// Every cell within `b` units either way.
pub open spec fn bounded(vals: Seq<i64>, b: int) -> bool {
    forall|j: int| 0 <= j < vals.len() ==> -b <= #[trigger] vals[j] <= b
}

/// Minimum of the values at the first `t` candidate indices.
pub open spec fn min_upto(vals: Seq<i64>, children: Seq<u64>, t: int) -> int
    decreases t
{
    if t <= 1 {
        vals[children[0] as int] as int
    } else {
        let prev = min_upto(vals, children, t - 1);
        let cur = vals[children[t - 1] as int] as int;
        if cur < prev {
            cur
        } else {
            prev
        }
    }
}

/// The value of one roll: the mover picks the successor that is worst for
/// the side to move there.
pub open spec fn roll_min(vals: Seq<i64>, e: RollEntry) -> int {
    min_upto(vals, e.children@, e.children@.len() as int)
}

/// Weight total of the first `t` rolls.
pub open spec fn weight_sum(rolls: Seq<RollEntry>, t: int) -> int
    decreases t
{
    if t <= 0 {
        0
    } else {
        weight_sum(rolls, t - 1) + rolls[t - 1].weight
    }
}

/// Weighted total of the roll minima over the first `t` rolls.
pub open spec fn weighted_total(vals: Seq<i64>, rolls: Seq<RollEntry>, t: int) -> int
    decreases t
{
    if t <= 0 {
        0
    } else {
        weighted_total(vals, rolls, t - 1) + rolls[t - 1].weight * roll_min(vals, rolls[t - 1])
    }
}

/// Integer division rounded toward zero, for a positive divisor.
pub open spec fn tdiv(a: int, b: int) -> int {
    if a >= 0 {
        a / b
    } else {
        -((-a) / b)
    }
}

/// The Bellman update of one ongoing cell: for each roll the mover picks
/// the successor whose stored value — the opponent's expected outcome — is
/// smallest; the multiplicity-weighted average of those minima is then
/// negated, turning the opponent's expectation into the mover's own.
pub open spec fn bellman(vals: Seq<i64>, rolls: Seq<RollEntry>) -> int {
    -tdiv(weighted_total(vals, rolls, rolls.len() as int), weight_sum(rolls, rolls.len() as int))
}

pub proof fn lemma_min_upto_bounds(vals: Seq<i64>, children: Seq<u64>, t: int, b: int)
    requires
        bounded(vals, b),
        1 <= t <= children.len(),
        forall|c: int| 0 <= c < children.len() ==> (#[trigger] children[c]) < vals.len(),
    ensures
        -b <= min_upto(vals, children, t) <= b,
    decreases t
{
    if t > 1 {
        lemma_min_upto_bounds(vals, children, t - 1, b);
    }
}

pub proof fn lemma_weight_sum_bounds(rolls: Seq<RollEntry>, t: int, m: int)
    requires
        0 <= t <= rolls.len(),
        forall|r: int| 0 <= r < rolls.len() ==> roll_entry_ok(#[trigger] rolls[r], m),
    ensures
        t <= weight_sum(rolls, t) <= 2 * t,
    decreases t
{
    if t > 0 {
        lemma_weight_sum_bounds(rolls, t - 1, m);
    }
}

pub proof fn lemma_weighted_total_bounds(
    vals: Seq<i64>,
    rolls: Seq<RollEntry>,
    t: int,
    b: int,
    m: int,
)
    requires
        bounded(vals, b),
        b >= 0,
        vals.len() == m,
        0 <= t <= rolls.len(),
        forall|r: int| 0 <= r < rolls.len() ==> roll_entry_ok(#[trigger] rolls[r], m),
    ensures
        -weight_sum(rolls, t) * b <= weighted_total(vals, rolls, t) <= weight_sum(rolls, t) * b,
    decreases t
{
    if t > 0 {
        lemma_weighted_total_bounds(vals, rolls, t - 1, b, m);
        lemma_weight_sum_bounds(rolls, t - 1, m);
        let e = rolls[t - 1];
        lemma_min_upto_bounds(vals, e.children@, e.children@.len() as int, b);
        let w = e.weight as int;
        let rm = roll_min(vals, e);
        assert(-(w * b) <= w * rm <= w * b) by (nonlinear_arith)
            requires
                -b <= rm <= b,
                1 <= w,
        ;
        assert((weight_sum(rolls, t - 1) + w) * b == weight_sum(rolls, t - 1) * b + w * b)
            by (nonlinear_arith);
        assert(-(weight_sum(rolls, t - 1) + w) * b == -weight_sum(rolls, t - 1) * b + -(w * b))
            by (nonlinear_arith);
    }
}

/// The magnitude of a truncated-division average never exceeds the
/// magnitude bound of what is averaged.
pub proof fn lemma_tdiv_bounds(a: int, w: int, b: int)
    requires
        1 <= w,
        0 <= b,
        -w * b <= a <= w * b,
    ensures
        -b <= tdiv(a, w) <= b,
{
    if a >= 0 {
        lemma_div_pos_is_pos(a, w);
        lemma_div_is_ordered(a, w * b, w);
        lemma_div_multiples_vanish(b, w);
        assert(w * b == b * w) by (nonlinear_arith);
    } else {
        assert(-a <= w * b) by (nonlinear_arith)
            requires
                -w * b <= a,
        ;
        lemma_div_pos_is_pos(-a, w);
        lemma_div_is_ordered(-a, w * b, w);
        lemma_div_multiples_vanish(b, w);
        assert(w * b == b * w) by (nonlinear_arith);
    }
}

/// Bellman updates keep every cell within the outcome range.
pub proof fn lemma_bellman_bounds(vals: Seq<i64>, rolls: Seq<RollEntry>, b: int, m: int)
    requires
        bounded(vals, b),
        b >= 0,
        vals.len() == m,
        1 <= rolls.len() <= 21,
        forall|r: int| 0 <= r < rolls.len() ==> roll_entry_ok(#[trigger] rolls[r], m),
    ensures
        -b <= bellman(vals, rolls) <= b,
        1 <= weight_sum(rolls, rolls.len() as int) <= 42,
        -42 * b <= weighted_total(vals, rolls, rolls.len() as int) <= 42 * b,
{
    let t = rolls.len() as int;
    lemma_weight_sum_bounds(rolls, t, m);
    lemma_weighted_total_bounds(vals, rolls, t, b, m);
    lemma_tdiv_bounds(weighted_total(vals, rolls, t), weight_sum(rolls, t), b);
    let w = weight_sum(rolls, t);
    assert(w * b <= 42 * b && -42 * b <= -w * b) by (nonlinear_arith)
        requires
            1 <= w <= 42,
            0 <= b,
    ;
}

/// Whether some entry owns cell `j`.
pub open spec fn has_index(entries: Seq<PosEntry>, j: int) -> bool {
    exists|e: int| 0 <= e < entries.len() && (#[trigger] entries[e].index) as int == j
}

/// The entry owning cell `j` (unique when the indices are distinct).
pub open spec fn entry_for(entries: Seq<PosEntry>, j: int) -> PosEntry {
    entries[choose|e: int| 0 <= e < entries.len() && (#[trigger] entries[e].index) as int == j]
}

/// What one synchronous sweep makes of a table: every owned cell becomes its
/// Bellman update read from the frozen previous table; every other cell is
/// carried over unchanged.
pub open spec fn sweep_spec(entries: Seq<PosEntry>, prev: Seq<i64>) -> Seq<i64> {
    Seq::new(
        prev.len(),
        |j: int|
            if has_index(entries, j) {
                bellman(prev, entry_for(entries, j).rolls@) as i64
            } else {
                prev[j]
            },
    )
}

/// The table after `k` synchronous sweeps.
pub open spec fn iterate_spec(entries: Seq<PosEntry>, init: Seq<i64>, k: nat) -> Seq<i64>
    decreases k
{
    if k == 0 {
        init
    } else {
        sweep_spec(entries, iterate_spec(entries, init, (k - 1) as nat))
    }
}

/// A cell no entry owns — every game-over cell among them — holds its
/// initial value after any number of sweeps.
pub proof fn lemma_untouched_cells_fixed(entries: Seq<PosEntry>, init: Seq<i64>, k: nat, j: int)
    requires
        0 <= j < init.len(),
        !has_index(entries, j),
    ensures
        iterate_spec(entries, init, k).len() == init.len(),
        iterate_spec(entries, init, k)[j] == init[j],
    decreases k
{
    if k > 0 {
        lemma_untouched_cells_fixed(entries, init, (k - 1) as nat, j);
    }
}

/// Truncated division of a magnitude-bounded value by a positive divisor.
pub(crate) fn tdiv_exec(a: i64, w: u64) -> (r: i64)
    requires
        1 <= w,
        -0x4000000000000000 <= a <= 0x4000000000000000,
        w <= 0x4000000000000000,
    ensures
        r as int == tdiv(a as int, w as int),
{
    if a >= 0 {
        let q = (a as u64) / w;
        proof {
            lemma_div_pos_is_pos(a as int, w as int);
            lemma_div_is_ordered(a as int, 0x4000000000000000, w as int);
        }
        q as i64
    } else {
        let q = ((-a) as u64) / w;
        proof {
            lemma_div_pos_is_pos(-(a as int), w as int);
            lemma_div_is_ordered(-(a as int), 0x4000000000000000, w as int);
        }
        -(q as i64)
    }
}

/// A fresh copy of a value table.
fn copy_values(v: &Vec<i64>) -> (r: Vec<i64>)
    ensures
        r@ =~= v@,
{
    let mut r: Vec<i64> = Vec::new();
    let mut i: usize = 0;
    while i < v.len()
        invariant
            i <= v@.len(),
            r@.len() == i,
            forall|t: int| 0 <= t < i ==> #[trigger] r@[t] == v@[t],
        decreases v@.len() - i
    {
        r.push(v[i]);
        i = i + 1;
    }
    r
}

/// The Bellman update of one entry, read from the frozen table.
fn bellman_exec(vals: &Vec<i64>, pe: &PosEntry) -> (r: i64)
    requires
        pos_entry_ok(*pe, vals@.len() as int),
        bounded(vals@, 3 * SCALE),
    ensures
        r as int == bellman(vals@, pe.rolls@),
        -3 * SCALE <= r <= 3 * SCALE,
{
    let m = vals.len();
    proof {
        lemma_bellman_bounds(vals@, pe.rolls@, 3 * SCALE, vals@.len() as int);
    }
    let mut total: i64 = 0;
    let mut wsum: u64 = 0;
    let mut r: usize = 0;
    while r < pe.rolls.len()
        invariant
            r <= pe.rolls@.len(),
            m == vals@.len(),
            pos_entry_ok(*pe, vals@.len() as int),
            bounded(vals@, 3 * SCALE),
            total as int == weighted_total(vals@, pe.rolls@, r as int),
            wsum as int == weight_sum(pe.rolls@, r as int),
        decreases pe.rolls@.len() - r
    {
        let e = &pe.rolls[r];
        proof {
            assert(roll_entry_ok(pe.rolls@[r as int], vals@.len() as int));
            assert(e.children@[0] < vals@.len());
        }
        let mut best: i64 = vals[e.children[0] as usize];
        proof {
            assert(best as int == min_upto(vals@, e.children@, 1));
        }
        let mut c: usize = 1;
        while c < e.children.len()
            invariant
                1 <= c <= e.children@.len(),
                m == vals@.len(),
                roll_entry_ok(*e, vals@.len() as int),
                bounded(vals@, 3 * SCALE),
                best as int == min_upto(vals@, e.children@, c as int),
                -3 * SCALE <= best <= 3 * SCALE,
            decreases e.children@.len() - c
        {
            proof {
                assert(e.children@[c as int] < vals@.len());
            }
            let cur = vals[e.children[c] as usize];
            if cur < best {
                best = cur;
            }
            c = c + 1;
        }
        proof {
            lemma_min_upto_bounds(vals@, e.children@, e.children@.len() as int, 3 * SCALE);
            lemma_weight_sum_bounds(pe.rolls@, r as int, vals@.len() as int);
            lemma_weight_sum_bounds(pe.rolls@, r as int + 1, vals@.len() as int);
            lemma_weighted_total_bounds(
                vals@,
                pe.rolls@,
                r as int + 1,
                3 * SCALE,
                vals@.len() as int,
            );
            lemma_weighted_total_bounds(vals@, pe.rolls@, r as int, 3 * SCALE, vals@.len() as int);
            let ws0 = weight_sum(pe.rolls@, r as int);
            let ws1 = weight_sum(pe.rolls@, r as int + 1);
            assert(ws0 * (3 * SCALE) <= 42 * (3 * SCALE) && -42 * (3 * SCALE) <= -ws0 * (3
                * SCALE)) by (nonlinear_arith)
                requires
                    0 <= ws0 <= 42,
            ;
            assert(ws1 * (3 * SCALE) <= 42 * (3 * SCALE) && -42 * (3 * SCALE) <= -ws1 * (3
                * SCALE)) by (nonlinear_arith)
                requires
                    0 <= ws1 <= 42,
            ;
            assert((e.weight as int) * (best as int) <= 2 * (3 * SCALE) && -(2 * (3 * SCALE))
                <= (e.weight as int) * (best as int)) by (nonlinear_arith)
                requires
                    -3 * SCALE <= best as int <= 3 * SCALE,
                    1 <= e.weight as int <= 2,
            ;
        }
        total = total + (e.weight as i64) * best;
        wsum = wsum + (e.weight as u64);
        r = r + 1;
    }
    proof {
        lemma_weight_sum_bounds(pe.rolls@, pe.rolls@.len() as int, vals@.len() as int);
    }
    -tdiv_exec(total, wsum)
}

/// Error metrics of one sweep over the first `t` entries: the total and the
/// maximum of the per-cell absolute deltas.
pub open spec fn err_sum(prev: Seq<i64>, new: Seq<i64>, entries: Seq<PosEntry>, t: int) -> int
    decreases t
{
    if t <= 0 {
        0
    } else {
        let j = entries[t - 1].index as int;
        err_sum(prev, new, entries, t - 1) + abs_i(new[j] - prev[j])
    }
}

pub open spec fn err_max(prev: Seq<i64>, new: Seq<i64>, entries: Seq<PosEntry>, t: int) -> int
    decreases t
{
    if t <= 0 {
        0
    } else {
        let j = entries[t - 1].index as int;
        let rest = err_max(prev, new, entries, t - 1);
        let d = abs_i(new[j] - prev[j]);
        if d > rest {
            d
        } else {
            rest
        }
    }
}

pub open spec fn abs_i(a: int) -> int {
    if a >= 0 {
        a
    } else {
        -a
    }
}

/// The result of one sweep: the fresh table and its error metrics.
pub struct SweepOutcome {
    pub values: Vec<i64>,
    pub sum_err: u64,
    pub max_err: u64,
}

/// One synchronous sweep: reads the frozen `prev` table, writes a fresh
/// table in which every owned cell holds its Bellman update and every other
/// cell its previous value, and reports the summed and maximal absolute
/// per-cell change.
pub fn sweep(entries: &Vec<PosEntry>, prev: &Vec<i64>) -> (out: SweepOutcome)
    requires
        entries_ok(entries@, prev@.len() as int),
        bounded(prev@, 3 * SCALE),
        entries@.len() <= 0x100000000,
    ensures
        out.values@ == sweep_spec(entries@, prev@),
        out.values@.len() == prev@.len(),
        bounded(out.values@, 3 * SCALE),
        forall|j: int|
            0 <= j < prev@.len() && !has_index(entries@, j) ==> #[trigger] out.values@[j]
                == prev@[j],
        out.sum_err as int == err_sum(prev@, out.values@, entries@, entries@.len() as int),
        out.max_err as int == err_max(prev@, out.values@, entries@, entries@.len() as int),
        out.max_err <= 6 * SCALE,
{
    let m = prev.len();
    let mut new_values = copy_values(prev);
    let mut sum_err: u64 = 0;
    let mut max_err: u64 = 0;
    let mut e: usize = 0;
    while e < entries.len()
        invariant
            e <= entries@.len(),
            m == prev@.len(),
            entries@.len() <= 0x100000000,
            entries_ok(entries@, prev@.len() as int),
            bounded(prev@, 3 * SCALE),
            new_values@.len() == prev@.len(),
            bounded(new_values@, 3 * SCALE),
            forall|t: int|
                0 <= t < e ==> #[trigger] new_values@[entries@[t].index as int] as int == bellman(
                    prev@,
                    entries@[t].rolls@,
                ),
            forall|j: int|
                0 <= j < prev@.len() && (forall|t: int|
                    0 <= t < e ==> (#[trigger] entries@[t].index) as int != j)
                    ==> new_values@[j] == prev@[j],
            sum_err as int == err_sum(prev@, new_values@, entries@, e as int),
            max_err as int == err_max(prev@, new_values@, entries@, e as int),
            sum_err as int <= (e as int) * 6 * SCALE,
            max_err <= 6 * SCALE,
        decreases entries@.len() - e
    {
        let pe = &entries[e];
        proof {
            assert(pos_entry_ok(entries@[e as int], prev@.len() as int));
            // The cell this entry owns still holds its previous value:
            // indices are distinct, so no earlier entry wrote it.
            assert forall|t: int| 0 <= t < e implies (#[trigger] entries@[t].index) as int
                != pe.index as int by {
                assert(entries@[t].index != entries@[e as int].index);
            }
            assert(new_values@[pe.index as int] == prev@[pe.index as int]);
        }
        let ghost before = new_values@;
        let val = bellman_exec(prev, pe);
        let idx = pe.index as usize;
        let prev_cell = new_values[idx];
        new_values.set(idx, val);
        let delta: u64 = if val >= prev_cell {
            (val - prev_cell) as u64
        } else {
            (prev_cell - val) as u64
        };
        proof {
            assert(new_values@ == before.update(pe.index as int, val));
            // Earlier entries' cells are untouched by this write.
            assert forall|t: int|
                0 <= t < e + 1 implies #[trigger] new_values@[entries@[t].index as int] as int
                == bellman(prev@, entries@[t].rolls@) by {
                if t < e {
                    assert(entries@[t].index != entries@[e as int].index);
                    assert(new_values@[entries@[t].index as int] == before[entries@[t].index
                        as int]);
                }
            }
            assert(delta as int == abs_i(new_values@[pe.index as int] - prev@[pe.index as int]));
            // The error prefixes over earlier entries are unchanged by the
            // write, because they read only earlier entries' cells.
            lemma_err_prefix_stable(prev@, before, new_values@, entries@, e as int);
        }
        sum_err = sum_err + delta;
        max_err = if delta > max_err {
            delta
        } else {
            max_err
        };
        e = e + 1;
    }
    proof {
        assert(new_values@ =~= sweep_spec(entries@, prev@));
    }
    let out = SweepOutcome { values: new_values, sum_err, max_err };
    out
}

/// Error prefixes depend only on the cells of the entries they cover, so a
/// write to a later entry's cell leaves them unchanged.
proof fn lemma_err_prefix_stable(
    prev: Seq<i64>,
    before: Seq<i64>,
    after: Seq<i64>,
    entries: Seq<PosEntry>,
    t: int,
)
    requires
        0 <= t <= entries.len(),
        before.len() == after.len(),
        forall|s: int|
            0 <= s < t ==> ((#[trigger] entries[s].index) as int) < before.len()
                && before[entries[s].index as int] == after[entries[s].index as int],
    ensures
        err_sum(prev, before, entries, t) == err_sum(prev, after, entries, t),
        err_max(prev, before, entries, t) == err_max(prev, after, entries, t),
    decreases t
{
    if t > 0 {
        lemma_err_prefix_stable(prev, before, after, entries, t - 1);
    }
}


/// The outcome of a value-iteration run: the final table, how many sweeps
/// ran, the last sweep's error metrics, and whether the maximum delta fell
/// below the threshold.
pub struct IterationOutcome {
    pub values: Vec<i64>,
    pub sweeps: usize,
    pub sum_err: u64,
    pub max_err: u64,
    pub converged: bool,
}

/// Runs synchronous sweeps until the maximum absolute per-cell delta falls
/// below `threshold` or `max_sweeps` sweeps have run.  The final table is
/// exactly the `sweeps`-fold Bellman iterate of the initial table — the
/// sweep count alone determines it — and every cell no entry owns still
/// holds its initial value.
pub fn value_iterate(
    entries: &Vec<PosEntry>,
    init: Vec<i64>,
    threshold: u64,
    max_sweeps: usize,
) -> (out: IterationOutcome)
    requires
        entries_ok(entries@, init@.len() as int),
        bounded(init@, 3 * SCALE),
        entries@.len() <= 0x100000000,
        1 <= max_sweeps,
    ensures
        out.values@ == iterate_spec(entries@, init@, out.sweeps as nat),
        1 <= out.sweeps <= max_sweeps,
        out.converged <==> out.max_err < threshold,
        !out.converged ==> out.sweeps == max_sweeps,
        out.values@.len() == init@.len(),
        bounded(out.values@, 3 * SCALE),
        forall|j: int|
            0 <= j < init@.len() && !has_index(entries@, j) ==> #[trigger] out.values@[j]
                == init@[j],
        out.max_err as int == err_max(
            iterate_spec(entries@, init@, (out.sweeps - 1) as nat),
            out.values@,
            entries@,
            entries@.len() as int,
        ),
        out.sum_err as int == err_sum(
            iterate_spec(entries@, init@, (out.sweeps - 1) as nat),
            out.values@,
            entries@,
            entries@.len() as int,
        ),
{
    let ghost ginit = init@;
    let mut cur = init;
    let mut sweeps: usize = 0;
    let mut sum_err: u64 = 0;
    let mut max_err: u64 = 0;
    let mut done: bool = false;
    while !done && sweeps < max_sweeps
        invariant
            sweeps <= max_sweeps,
            1 <= max_sweeps,
            done ==> 1 <= sweeps && max_err < threshold,
            entries_ok(entries@, ginit.len() as int),
            entries@.len() <= 0x100000000,
            cur@.len() == ginit.len(),
            bounded(cur@, 3 * SCALE),
            cur@ == iterate_spec(entries@, ginit, sweeps as nat),
            sweeps >= 1 ==> max_err as int == err_max(
                iterate_spec(entries@, ginit, (sweeps - 1) as nat),
                cur@,
                entries@,
                entries@.len() as int,
            ),
            sweeps >= 1 ==> sum_err as int == err_sum(
                iterate_spec(entries@, ginit, (sweeps - 1) as nat),
                cur@,
                entries@,
                entries@.len() as int,
            ),
            !done && sweeps >= 1 ==> max_err >= threshold,
        decreases max_sweeps - sweeps
    {
        let stats = sweep(entries, &cur);
        cur = stats.values;
        sum_err = stats.sum_err;
        max_err = stats.max_err;
        sweeps = sweeps + 1;
        proof {
            assert(cur@ == iterate_spec(entries@, ginit, sweeps as nat));
        }
        if max_err < threshold {
            done = true;
        }
    }
    proof {
        assert forall|j: int|
            0 <= j < ginit.len() && !has_index(entries@, j) implies #[trigger] cur@[j]
            == ginit[j] by {
            lemma_untouched_cells_fixed(entries@, ginit, sweeps as nat, j);
        }
    }
    let converged = max_err < threshold;
    let out = IterationOutcome { values: cur, sweeps, sum_err, max_err, converged };
    out
}

} // verus!
