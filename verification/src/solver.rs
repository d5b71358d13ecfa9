//! Gluing the enumerator to the engine: the transition precomputer, the
//! terminal-value initializer, and the opening-position equity probe.

use vstd::prelude::*;
use crate::comb::table_ok;
use crate::position::{
    Position, PosV, wf_v, state_spec, GameState, game_state, result_value,
};
use crate::dice::{all_rolls, all_rolls_spec, opening_rolls, opening_rolls_spec, roll_ok};
use crate::movegen::successors;
use crate::enumerate::{views, hash64, succ_at, hash_u64, frontier_ok, lemma_hash64_exact};
use crate::index::{hash_spec, possible_spec, lemma_dbhash_injective};
use crate::equity::{
    RollEntry, PosEntry, entries_ok, pos_entry_ok, roll_entry_ok, has_index, SCALE, bounded, tdiv,
    tdiv_exec,
};

verus! {

/// A batch of enumerated positions of one variant: all well formed, all of
/// the variant's checker count, no index occurring twice.
pub open spec fn batch_ok(n: int, ps: Seq<PosV>) -> bool {
    &&& frontier_ok(n, ps)
    &&& forall|k1: int, k2: int|
        0 <= k1 < k2 < ps.len() ==> hash64(ps[k1]) != hash64(ps[k2])
}

/// `pe` is exactly the transition table of `v`: its own index, and for each
/// of the 21 rolls in the fixed order, the roll's multiplicity and its
/// successors' indices in generation order.
pub open spec fn entry_matches(n: int, v: PosV, pe: PosEntry) -> bool {
    &&& pe.index == hash64(v)
    &&& pe.rolls@.len() == 21
    &&& forall|r: int|
        0 <= r < 21 ==> {
            let ss = succ_at(n, v, all_rolls_spec()[r]);
            let e = #[trigger] pe.rolls@[r];
            &&& e.weight as int == (if all_rolls_spec()[r].0 == all_rolls_spec()[r].1 {
                1int
            } else {
                2int
            })
            &&& e.children@.len() == ss.len()
            &&& forall|c: int| 0 <= c < ss.len() ==> (#[trigger] e.children@[c]) == hash64(ss[c])
        }
}

/// The entry is the exact transition table of some ongoing batch member.
pub open spec fn entry_sound(n: int, ps: Seq<PosV>, pe: PosEntry) -> bool {
    exists|k: int|
        0 <= k < ps.len() && state_spec(ps[k]) is Ongoing && #[trigger] entry_matches(
            n,
            ps[k],
            pe,
        )
}

/// In a strictly increasing sequence of nonnegative indices, the value at
/// position `t` is at least `t`.
proof fn lemma_increasing_at_least(src: Seq<int>, t: int)
    requires
        0 <= t < src.len(),
        forall|u: int| 0 <= u < src.len() ==> #[trigger] src[u] >= 0,
        forall|t1: int, t2: int| 0 <= t1 < t2 < src.len() ==> src[t1] < src[t2],
    ensures
        src[t] >= t,
    decreases t
{
    if t > 0 {
        lemma_increasing_at_least(src, t - 1);
    }
}

/// Whether some ongoing batch member has index `j`.
pub open spec fn ongoing_index(n: int, ps: Seq<PosV>, j: int) -> bool {
    exists|k: int|
        0 <= k < ps.len() && state_spec(#[trigger] ps[k]) is Ongoing && hash_spec(ps[k]) == j
}

/// Precomputes the transition table: one entry per ongoing batch member,
/// holding for every roll of the 21-roll set the roll's weight and the dense
/// indices of the successor positions.  Computed once and reused by every
/// sweep.
pub fn create_posmap(
    positions: &Vec<Position>,
    n: u8,
    table: &Vec<Vec<u128>>,
    m: usize,
) -> (r: Vec<PosEntry>)
    requires
        1 <= n <= 5,
        table_ok(table@, 26, 15),
        m as int == possible_spec(n as int),
        batch_ok(n as int, views(positions@)),
    ensures
        entries_ok(r@, m as int),
        r@.len() <= positions@.len(),
        forall|j: int| has_index(r@, j) <==> ongoing_index(n as int, views(positions@), j),
        forall|t: int|
            0 <= t < r@.len() ==> entry_sound(n as int, views(positions@), #[trigger] r@[t]),
{
    let ghost gps = views(positions@);
    let rolls21 = all_rolls();
    proof {
        assert(crate::dice::rolls_pairs(rolls21@) =~= all_rolls_spec());
    }
    let mut r: Vec<PosEntry> = Vec::new();
    let ghost mut src: Seq<int> = Seq::empty();
    let mut k: usize = 0;
    while k < positions.len()
        invariant
            k <= positions@.len(),
            1 <= n <= 5,
            table_ok(table@, 26, 15),
            m as int == possible_spec(n as int),
            batch_ok(n as int, gps),
            gps == views(positions@),
            gps.len() == positions@.len(),
            rolls21@.len() == 21,
            forall|i: int| 0 <= i < 21 ==> roll_ok(#[trigger] rolls21@[i]),
            forall|i: int|
                0 <= i < 21 ==> (#[trigger] rolls21@[i].d1 as int, rolls21@[i].d2 as int)
                    == all_rolls_spec()[i],
            src.len() == r@.len(),
            forall|t: int| 0 <= t < src.len() ==> 0 <= #[trigger] src[t] < k,
            forall|t1: int, t2: int| 0 <= t1 < t2 < src.len() ==> src[t1] < src[t2],
            forall|t: int|
                0 <= t < src.len() ==> state_spec(gps[#[trigger] src[t]]) is Ongoing
                    && entry_matches(n as int, gps[src[t]], r@[t]),
            forall|t: int| 0 <= t < r@.len() ==> pos_entry_ok(#[trigger] r@[t], m as int),
            forall|q: int|
                0 <= q < k && state_spec(#[trigger] gps[q]) is Ongoing ==> (exists|t: int|
                    0 <= t < src.len() && src[t] == q),
        decreases positions@.len() - k
    {
        let pos = &positions[k];
        proof {
            assert(gps[k as int] == pos@);
        }
        let st = game_state(pos);
        if matches!(st, GameState::Ongoing) {
            let idx = hash_u64(pos, table);
            let mut rolls: Vec<RollEntry> = Vec::new();
            let mut ri: usize = 0;
            while ri < 21
                invariant
                    ri <= 21,
                    1 <= n <= 5,
                    table_ok(table@, 26, 15),
                    m as int == possible_spec(n as int),
                    pos@ == gps[k as int],
                    k < gps.len(),
                    batch_ok(n as int, gps),
                    state_spec(pos@) is Ongoing,
                    rolls21@.len() == 21,
                    forall|i: int| 0 <= i < 21 ==> roll_ok(#[trigger] rolls21@[i]),
                    forall|i: int|
                        0 <= i < 21 ==> (#[trigger] rolls21@[i].d1 as int, rolls21@[i].d2 as int)
                            == all_rolls_spec()[i],
                    rolls@.len() == ri,
                    forall|i: int|
                        0 <= i < ri ==> {
                            let ss = succ_at(n as int, pos@, all_rolls_spec()[i]);
                            let e = #[trigger] rolls@[i];
                            &&& e.weight as int == (if all_rolls_spec()[i].0
                                == all_rolls_spec()[i].1 {
                                1int
                            } else {
                                2int
                            })
                            &&& e.children@.len() == ss.len()
                            &&& forall|c: int|
                                0 <= c < ss.len() ==> (#[trigger] e.children@[c]) == hash64(ss[c])
                        },
                    forall|i: int| 0 <= i < ri ==> roll_entry_ok(#[trigger] rolls@[i], m as int),
                decreases 21 - ri
            {
                let roll = &rolls21[ri];
                let cs = successors(pos, roll.d1, roll.d2);
                let ghost gss = succ_at(n as int, pos@, all_rolls_spec()[ri as int]);
                proof {
                    assert((roll.d1 as int, roll.d2 as int) == all_rolls_spec()[ri as int]);
                    assert(cs@.map_values(|p: Position| p@) == gss);
                }
                let mut children: Vec<u64> = Vec::new();
                let mut c: usize = 0;
                while c < cs.len()
                    invariant
                        c <= cs@.len(),
                        1 <= n <= 5,
                        table_ok(table@, 26, 15),
                        m as int == possible_spec(n as int),
                        cs@.map_values(|p: Position| p@) == gss,
                        forall|t: int|
                            0 <= t < cs@.len() ==> wf_v(#[trigger] cs@[t]@) && cs@[t]@.checkers
                                == n as int,
                        children@.len() == c,
                        forall|t: int|
                            0 <= t < c ==> (#[trigger] children@[t]) == hash64(gss[t]),
                        forall|t: int| 0 <= t < c ==> (#[trigger] children@[t]) < m as u64,
                    decreases cs@.len() - c
                {
                    let child = &cs[c];
                    proof {
                        assert(cs@.map_values(|p: Position| p@)[c as int] == gss[c as int]);
                        assert(child@ == gss[c as int]);
                    }
                    let h = hash_u64(child, table);
                    children.push(h);
                    c = c + 1;
                }
                let w: u8 = if roll.d1 == roll.d2 {
                    1
                } else {
                    2
                };
                rolls.push(RollEntry { weight: w, children });
                ri = ri + 1;
            }
            proof {
                lemma_hash64_exact(pos@);
            }
            let ghost src0 = src;
            r.push(PosEntry { index: idx, rolls });
            proof {
                src = src.push(k as int);
                assert(entry_matches(n as int, gps[k as int], r@[r@.len() - 1]));
                assert(src[src.len() - 1] == k as int);
                assert forall|q: int|
                    0 <= q < k + 1 && state_spec(#[trigger] gps[q]) is Ongoing implies (exists|t: int|
                    0 <= t < src.len() && src[t] == q) by {
                    if q < k as int {
                        let t = choose|t: int| 0 <= t < src0.len() && #[trigger] src0[t] == q;
                        assert(src[t] == q);
                    } else {
                        assert(src[src.len() - 1] == q);
                    }
                }
            }
        } else {
            proof {
                assert forall|q: int|
                    0 <= q < k + 1 && state_spec(#[trigger] gps[q]) is Ongoing implies (exists|t: int|
                    0 <= t < src.len() && src[t] == q) by {
                    assert(q < k as int);
                    let t = choose|t: int| 0 <= t < src.len() && #[trigger] src[t] == q;
                }
            }
        }
        k = k + 1;
    }
    proof {
        // One entry per ongoing member: the source indices grow strictly,
        // so there are no more entries than batch members.
        if r@.len() > 0 {
            lemma_increasing_at_least(src, src.len() - 1);
        }
        // Distinct sources give distinct indices.
        assert forall|t1: int, t2: int|
            0 <= t1 < t2 < r@.len() implies r@[t1].index != r@[t2].index by {
            assert(r@[t1].index == hash64(gps[src[t1]]));
            assert(r@[t2].index == hash64(gps[src[t2]]));
        }
        // An entry index is an ongoing member's index, and conversely.
        assert forall|j: int| has_index(r@, j) implies ongoing_index(n as int, gps, j) by {
            let t = choose|t: int| 0 <= t < r@.len() && (#[trigger] r@[t].index) as int == j;
            lemma_hash64_exact(gps[src[t]]);
            assert(state_spec(gps[src[t]]) is Ongoing && hash_spec(gps[src[t]]) == j);
        }
        assert forall|t: int|
            0 <= t < r@.len() implies entry_sound(n as int, views(positions@), #[trigger] r@[t]) by {
            assert(0 <= src[t] < gps.len());
            assert(entry_matches(n as int, views(positions@)[src[t]], r@[t]));
            assert(state_spec(views(positions@)[src[t]]) is Ongoing);
        }
        assert forall|j: int| ongoing_index(n as int, gps, j) implies has_index(r@, j) by {
            let q = choose|q: int|
                0 <= q < gps.len() && state_spec(#[trigger] gps[q]) is Ongoing && hash_spec(
                    gps[q],
                ) == j;
            let t = choose|t: int| 0 <= t < src.len() && #[trigger] src[t] == q;
            lemma_hash64_exact(gps[q]);
            assert((r@[t].index) as int == j);
        }
    }
    r
}

/// The fixed value of a finished position's cell, in fixed-point units;
/// zero for an ongoing position.
pub open spec fn terminal_value(v: PosV) -> int {
    match state_spec(v) {
        GameState::GameOver(res) => result_value(res) * SCALE,
        GameState::Ongoing => 0,
    }
}

/// Allocates the equity table and seeds it: every finished batch member's
/// cell holds its outcome's fixed value, every other cell starts at zero.
pub fn init_equities(
    positions: &Vec<Position>,
    n: u8,
    table: &Vec<Vec<u128>>,
    m: usize,
) -> (r: Vec<i64>)
    requires
        1 <= n <= 5,
        table_ok(table@, 26, 15),
        m as int == possible_spec(n as int),
        batch_ok(n as int, views(positions@)),
    ensures
        r@.len() == m,
        bounded(r@, 3 * SCALE),
        forall|k: int|
            0 <= k < views(positions@).len() && !(state_spec(
                #[trigger] views(positions@)[k],
            ) is Ongoing) ==> r@[hash_spec(views(positions@)[k])] == terminal_value(
                views(positions@)[k],
            ),
        forall|j: int|
            0 <= j < m && !(exists|k: int|
                0 <= k < views(positions@).len() && !(state_spec(
                    #[trigger] views(positions@)[k],
                ) is Ongoing) && hash_spec(views(positions@)[k]) == j) ==> r@[j] == 0,
{
    let ghost gps = views(positions@);
    let mut r: Vec<i64> = Vec::new();
    let mut z: usize = 0;
    while z < m
        invariant
            z <= m,
            r@.len() == z,
            forall|j: int| 0 <= j < z ==> #[trigger] r@[j] == 0,
        decreases m - z
    {
        r.push(0);
        z = z + 1;
    }
    let mut k: usize = 0;
    while k < positions.len()
        invariant
            k <= positions@.len(),
            1 <= n <= 5,
            table_ok(table@, 26, 15),
            m as int == possible_spec(n as int),
            batch_ok(n as int, gps),
            gps == views(positions@),
            gps.len() == positions@.len(),
            r@.len() == m,
            bounded(r@, 3 * SCALE),
            forall|q: int|
                0 <= q < k && !(state_spec(#[trigger] gps[q]) is Ongoing) ==> r@[hash_spec(
                    gps[q],
                )] == terminal_value(gps[q]),
            forall|j: int|
                0 <= j < m && !(exists|q: int|
                    0 <= q < k && !(state_spec(#[trigger] gps[q]) is Ongoing) && hash_spec(
                        gps[q],
                    ) == j) ==> r@[j] == 0,
        decreases positions@.len() - k
    {
        let pos = &positions[k];
        proof {
            assert(gps[k as int] == pos@);
        }
        let st = game_state(pos);
        match st {
            GameState::Ongoing => {},
            GameState::GameOver(res) => {
                let h = hash_u64(pos, table);
                let idx = h as usize;
                let ghost before = r@;
                let v: i64 = (res.value() as i64) * SCALE;
                r.set(idx, v);
                proof {
                    lemma_hash64_exact(pos@);
                    assert(r@ == before.update(hash_spec(gps[k as int]), v));
                    assert(v as int == terminal_value(gps[k as int]));
                    // Earlier finished members' cells are untouched: their
                    // indices differ from this one.
                    assert forall|q: int|
                        0 <= q < k + 1 && !(state_spec(#[trigger] gps[q]) is Ongoing) implies r@[
                    hash_spec(gps[q])] == terminal_value(gps[q]) by {
                        if q < k as int {
                            lemma_hash64_exact(gps[q]);
                            assert(hash64(gps[q]) != hash64(gps[k as int]));
                            assert(hash_spec(gps[q]) != hash_spec(gps[k as int]));
                        }
                    }
                }
            },
        }
        k = k + 1;
    }
    r
}

/// A finished batch member's cell is owned by no transition entry, so value
/// iteration never rewrites it: the cell keeps its seeded outcome value
/// across every sweep.
pub proof fn lemma_gameover_cell_has_no_entry(
    n: int,
    ps: Seq<PosV>,
    entries: Seq<PosEntry>,
    k: int,
)
    requires
        1 <= n <= 5,
        batch_ok(n, ps),
        forall|j: int| has_index(entries, j) <==> ongoing_index(n, ps, j),
        0 <= k < ps.len(),
        !(state_spec(ps[k]) is Ongoing),
    ensures
        !has_index(entries, hash_spec(ps[k])),
{
    if has_index(entries, hash_spec(ps[k])) {
        let q = choose|q: int|
            0 <= q < ps.len() && state_spec(#[trigger] ps[q]) is Ongoing && hash_spec(ps[q])
                == hash_spec(ps[k]);
        lemma_dbhash_injective(ps[q], ps[k]);
        assert(false);
    }
}

/// The cell of a finished position never changes: seeded with the
/// outcome's fixed value, it is owned by no transition entry, so after any
/// number of sweeps it still holds that value.
pub proof fn lemma_terminal_cells_fixed(
    n: int,
    ps: Seq<PosV>,
    entries: Seq<PosEntry>,
    init: Seq<i64>,
    k: int,
    sweeps: nat,
)
    requires
        1 <= n <= 5,
        batch_ok(n, ps),
        forall|j: int| has_index(entries, j) <==> ongoing_index(n, ps, j),
        0 <= k < ps.len(),
        !(state_spec(ps[k]) is Ongoing),
        0 <= hash_spec(ps[k]) < init.len(),
        init[hash_spec(ps[k])] == terminal_value(ps[k]),
    ensures
        crate::equity::iterate_spec(entries, init, sweeps)[hash_spec(ps[k])] == terminal_value(
            ps[k],
        ),
{
    lemma_gameover_cell_has_no_entry(n, ps, entries, k);
    crate::equity::lemma_untouched_cells_fixed(entries, init, sweeps, hash_spec(ps[k]));
}

/// Minimum stored value over the first `t` successors.
pub open spec fn pos_min_upto(vals: Seq<i64>, ss: Seq<PosV>, t: int) -> int
    decreases t
{
    if t <= 1 {
        vals[hash_spec(ss[0])] as int
    } else {
        let prev = pos_min_upto(vals, ss, t - 1);
        let cur = vals[hash_spec(ss[t - 1])] as int;
        if cur < prev {
            cur
        } else {
            prev
        }
    }
}

/// Total over the first `t` opening rolls of the minimum successor value.
pub open spec fn probe_total(n: int, v: PosV, vals: Seq<i64>, t: int) -> int
    decreases t
{
    if t <= 0 {
        0
    } else {
        let ss = succ_at(n, v, opening_rolls_spec()[t - 1]);
        probe_total(n, v, vals, t - 1) + pos_min_upto(vals, ss, ss.len() as int)
    }
}

/// The diagnostic opening probe: the average over the opening rolls of the
/// minimum successor value, negated into the mover's own perspective as in
/// the sweep's update rule.  Read-only and never written back.
pub open spec fn probe_spec(v: PosV, vals: Seq<i64>) -> int {
    -tdiv(probe_total(v.checkers, v, vals, 15), 15)
}

proof fn lemma_pos_min_bounds(vals: Seq<i64>, ss: Seq<PosV>, t: int, b: int)
    requires
        bounded(vals, b),
        1 <= t <= ss.len(),
        forall|c: int| 0 <= c < ss.len() ==> 0 <= hash_spec(#[trigger] ss[c]) < vals.len(),
    ensures
        -b <= pos_min_upto(vals, ss, t) <= b,
    decreases t
{
    if t > 1 {
        lemma_pos_min_bounds(vals, ss, t - 1, b);
    }
}

/// Evaluates the current table at a position using the opening roll set:
/// the live convergence diagnostic for the starting position.
pub fn check_open(pos: &Position, values: &Vec<i64>, table: &Vec<Vec<u128>>) -> (r: i64)
    requires
        pos.wf(),
        1 <= pos.checkers <= 5,
        (state_spec(pos@) is Ongoing),
        table_ok(table@, 26, 15),
        values@.len() == possible_spec(pos@.checkers),
        bounded(values@, 3 * SCALE),
    ensures
        r as int == probe_spec(pos@, values@),
        -3 * SCALE <= r <= 3 * SCALE,
{
    let m = values.len();
    let opening = opening_rolls();
    let mut total: i64 = 0;
    let mut t: usize = 0;
    while t < 15
        invariant
            t <= 15,
            m == values@.len(),
            pos.wf(),
            1 <= pos.checkers <= 5,
            (state_spec(pos@) is Ongoing),
            table_ok(table@, 26, 15),
            values@.len() == possible_spec(pos@.checkers),
            bounded(values@, 3 * SCALE),
            opening@.len() == 15,
            forall|i: int|
                0 <= i < 15 ==> 1 <= (#[trigger] opening@[i]).d1 < opening@[i].d2 <= 6
                    && opening@[i].weight == 1,
            forall|i: int|
                0 <= i < 15 ==> (#[trigger] opening@[i].d1 as int, opening@[i].d2 as int)
                    == opening_rolls_spec()[i],
            total as int == probe_total(pos@.checkers, pos@, values@, t as int),
            -3 * SCALE * t <= total as int <= 3 * SCALE * t,
        decreases 15 - t
    {
        let roll = &opening[t];
        let cs = successors(pos, roll.d1, roll.d2);
        let ghost gss = succ_at(pos@.checkers, pos@, opening_rolls_spec()[t as int]);
        proof {
            assert((roll.d1 as int, roll.d2 as int) == opening_rolls_spec()[t as int]);
            assert(cs@.map_values(|p: Position| p@) == gss);
            assert forall|c: int| 0 <= c < gss.len() implies 0 <= hash_spec(#[trigger] gss[c])
                < values@.len() by {
                assert(cs@.map_values(|p: Position| p@)[c] == gss[c]);
                assert(wf_v(gss[c]) && gss[c].checkers == pos@.checkers);
                lemma_hash64_exact(gss[c]);
            }
        }
        let child0 = &cs[0];
        proof {
            assert(cs@.map_values(|p: Position| p@)[0] == gss[0]);
        }
        let h0 = hash_u64(child0, table);
        let mut best: i64 = values[h0 as usize];
        proof {
            assert(best as int == pos_min_upto(values@, gss, 1));
        }
        let mut c: usize = 1;
        while c < cs.len()
            invariant
                1 <= c <= cs@.len(),
                m == values@.len(),
                1 <= pos@.checkers <= 5,
                table_ok(table@, 26, 15),
                bounded(values@, 3 * SCALE),
                values@.len() == possible_spec(pos@.checkers),
                cs@.map_values(|p: Position| p@) == gss,
                forall|i: int|
                    0 <= i < cs@.len() ==> wf_v(#[trigger] cs@[i]@) && cs@[i]@.checkers
                        == pos@.checkers,
                forall|i: int|
                    0 <= i < gss.len() ==> 0 <= hash_spec(#[trigger] gss[i]) < values@.len(),
                best as int == pos_min_upto(values@, gss, c as int),
                -3 * SCALE <= best <= 3 * SCALE,
            decreases cs@.len() - c
        {
            let child = &cs[c];
            proof {
                assert(cs@.map_values(|p: Position| p@)[c as int] == gss[c as int]);
            }
            let h = hash_u64(child, table);
            let cur = values[h as usize];
            if cur < best {
                best = cur;
            }
            c = c + 1;
        }
        proof {
            lemma_pos_min_bounds(values@, gss, gss.len() as int, 3 * SCALE);
            assert(-3 * SCALE * (t as int) <= total as int <= 3 * SCALE * (t as int));
            assert(t < 15);
            assert(-3 * SCALE * ((t + 1) as int) <= total as int + best as int <= 3 * SCALE * ((t
                + 1) as int)) by (nonlinear_arith)
                requires
                    -3 * SCALE * (t as int) <= total as int <= 3 * SCALE * (t as int),
                    0 <= t < 15,
                    -(3 * SCALE) <= best as int <= 3 * SCALE,
            ;
            assert(-3 * SCALE * 15 <= total as int + best as int <= 3 * SCALE * 15)
                by (nonlinear_arith)
                requires
                    -3 * SCALE * ((t + 1) as int) <= total as int + best as int <= 3 * SCALE * ((t
                        + 1) as int),
                    0 <= t < 15,
            ;
        }
        total = total + best;
        t = t + 1;
    }
    -tdiv_exec(total, 15)
}

} // verus!
