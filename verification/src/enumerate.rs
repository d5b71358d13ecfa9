//! Breadth-first enumeration of the reachable position set, deduplicated by
//! dense index.  The dedup set is a hash set of 64-bit indices; because the
//! indexer is injective over well-formed positions, index dedup is position
//! dedup.  Expansion is chunk-friendly: what the dedup set holds afterwards
//! is exactly the old set united with the children of the frontier, a set
//! equation independent of how the frontier is split or ordered.

use vstd::prelude::*;
use std::collections::HashSet;
use crate::comb::table_ok;
use crate::position::{Position, PosV, wf_v, state_spec, GameState, game_state};
use crate::dice::{Roll, all_rolls, opening_rolls, rolls_valid, rolls_pairs, all_rolls_spec, opening_rolls_spec};
use crate::movegen::{successors, successors_of};
use crate::index::{dbhash, hash_spec, possible_spec, lemma_hash_bound};

verus! {

/// The views of a sequence of positions.
pub open spec fn views(s: Seq<Position>) -> Seq<PosV> {
    s.map_values(|p: Position| p@)
}

/// The dense index of a position, narrowed to 64 bits; lossless for the
/// supported variants (up to five checkers a side).
pub open spec fn hash64(v: PosV) -> u64 {
    hash_spec(v) as u64
}

/// Successors for one roll, as a spec value.
pub open spec fn succ_at(n: int, v: PosV, roll: (int, int)) -> Seq<PosV> {
    successors_of(n, v, roll.0, roll.1)
}

/// `h` is the index of a successor of `v` under one of the first `r_upto`
/// rolls.
pub open spec fn child_upto(n: int, v: PosV, rolls: Seq<(int, int)>, r_upto: int, h: u64) -> bool {
    exists|r: int, c: int|
        0 <= r < r_upto && 0 <= c < succ_at(n, v, rolls[r]).len() && hash64(
            #[trigger] succ_at(n, v, rolls[r])[c],
        ) == h
}

/// `h` is the index of a child of `v`: `v` is ongoing and some roll reaches
/// a successor with that index.
pub open spec fn is_child(n: int, v: PosV, rolls: Seq<(int, int)>, h: u64) -> bool {
    &&& state_spec(v) is Ongoing
    &&& child_upto(n, v, rolls, rolls.len() as int, h)
}

/// `h` is a child index of one of the first `i_upto` frontier members.
pub open spec fn frontier_child_upto(
    n: int,
    fr: Seq<PosV>,
    rolls: Seq<(int, int)>,
    i_upto: int,
    h: u64,
) -> bool {
    exists|i: int| 0 <= i < i_upto && is_child(n, #[trigger] fr[i], rolls, h)
}

/// `h` is a child index of some frontier member.
pub open spec fn frontier_child(n: int, fr: Seq<PosV>, rolls: Seq<(int, int)>, h: u64) -> bool {
    frontier_child_upto(n, fr, rolls, fr.len() as int, h)
}

/// Some position in the sequence has index `h`.
pub open spec fn has_hash(s: Seq<PosV>, h: u64) -> bool {
    exists|k: int| 0 <= k < s.len() && hash64(#[trigger] s[k]) == h
}

/// A frontier every member of which the enumerator may expand.
pub open spec fn frontier_ok(n: int, fr: Seq<PosV>) -> bool {
    forall|i: int| 0 <= i < fr.len() ==> wf_v(#[trigger] fr[i]) && fr[i].checkers == n
}

/// Thread-count invariance of expansion, as a set equation: the children of
/// a partitioned frontier are the union of the children of its parts, so
/// expanding chunk by chunk — in any order, under any scheduling — grows the
/// dedup set to exactly the same set as expanding the whole frontier at
/// once.
pub proof fn lemma_expansion_partition(
    n: int,
    f1: Seq<PosV>,
    f2: Seq<PosV>,
    rolls: Seq<(int, int)>,
    h: u64,
)
    ensures
        frontier_child(n, f1 + f2, rolls, h) <==> frontier_child(n, f1, rolls, h)
            || frontier_child(n, f2, rolls, h),
{
    let cat = f1 + f2;
    if frontier_child(n, cat, rolls, h) {
        let i = choose|i: int| 0 <= i < cat.len() && is_child(n, #[trigger] cat[i], rolls, h);
        if i < f1.len() {
            assert(cat[i] == f1[i]);
            assert(frontier_child(n, f1, rolls, h));
        } else {
            assert(cat[i] == f2[i - f1.len()]);
            assert(frontier_child(n, f2, rolls, h));
        }
    }
    if frontier_child(n, f1, rolls, h) {
        let i = choose|i: int| 0 <= i < f1.len() && is_child(n, #[trigger] f1[i], rolls, h);
        assert(cat[i] == f1[i]);
        assert(frontier_child(n, cat, rolls, h));
    }
    if frontier_child(n, f2, rolls, h) {
        let i = choose|i: int| 0 <= i < f2.len() && is_child(n, #[trigger] f2[i], rolls, h);
        assert(cat[f1.len() + i] == f2[i]);
        assert(frontier_child(n, cat, rolls, h));
    }
}

/// For variants of up to five checkers the index range fits well below
/// 2^64, so the narrowed index is the exact index.
pub proof fn lemma_hash64_exact(v: PosV)
    requires
        wf_v(v),
        v.checkers <= 5,
    ensures
        hash64(v) as int == hash_spec(v),
        hash_spec(v) < possible_spec(v.checkers),
{
    lemma_hash_bound(v);
    crate::comb::lemma_mcomb_nonneg(26, v.checkers);
    crate::comb::lemma_binom_le_pow2(25 + v.checkers, v.checkers);
    vstd::arithmetic::power2::lemma2_to64();
    vstd::arithmetic::power2::lemma2_to64_rest();
    if 25 + v.checkers < 30 {
        vstd::arithmetic::power2::lemma_pow2_strictly_increases((25 + v.checkers) as nat, 30);
    }
    let p30 = vstd::arithmetic::power2::pow2(30);
    assert(possible_spec(v.checkers) <= p30 * p30) by (nonlinear_arith)
        requires
            0 <= crate::comb::mcomb_spec(26, v.checkers) <= p30,
            possible_spec(v.checkers) == crate::comb::mcomb_spec(26, v.checkers)
                * crate::comb::mcomb_spec(26, v.checkers),
    ;
    vstd::arithmetic::power2::lemma_pow2_adds(30, 30);
    vstd::arithmetic::power2::lemma_pow2_strictly_increases(60, 64);
    assert(hash_spec(v) < 0x10000000000000000);
}

/// The dense index as a 64-bit value; exact for variants of up to five
/// checkers.
pub fn hash_u64(pos: &Position, table: &Vec<Vec<u128>>) -> (r: u64)
    requires
        pos.wf(),
        pos.checkers <= 5,
        table_ok(table@, 26, 15),
    ensures
        r == hash64(pos@),
        r as int == hash_spec(pos@),
        (r as int) < possible_spec(pos@.checkers),
{
    let h = dbhash(pos, table);
    proof {
        lemma_hash_bound(pos@);
        crate::comb::lemma_mcomb_nonneg(26, pos@.checkers);
        crate::comb::lemma_binom_le_pow2(25 + pos@.checkers, pos@.checkers);
        vstd::arithmetic::power2::lemma2_to64();
        vstd::arithmetic::power2::lemma2_to64_rest();
        if 25 + pos@.checkers < 30 {
            vstd::arithmetic::power2::lemma_pow2_strictly_increases(
                (25 + pos@.checkers) as nat,
                30,
            );
        }
        let p30 = vstd::arithmetic::power2::pow2(30);
        assert(possible_spec(pos@.checkers) <= p30 * p30) by (nonlinear_arith)
            requires
                0 <= crate::comb::mcomb_spec(26, pos@.checkers) <= p30,
                possible_spec(pos@.checkers) == crate::comb::mcomb_spec(26, pos@.checkers)
                    * crate::comb::mcomb_spec(26, pos@.checkers),
        ;
        vstd::arithmetic::power2::lemma_pow2_adds(30, 30);
        vstd::arithmetic::power2::lemma_pow2_strictly_increases(60, 64);
        assert((h as int) < 0x10000000000000000);
    }
    h as u64
}

/// Expands one frontier chunk: generates every child of every ongoing chunk
/// member, tests each child's index against the shared dedup set, and keeps
/// exactly the children whose index was not yet present.  Afterwards the
/// dedup set is the old set united with the chunk's child indices — a set
/// equation independent of expansion order.
pub fn expand(
    n: u8,
    frontier: &Vec<Position>,
    rolls: &Vec<Roll>,
    found: &mut HashSet<u64>,
    table: &Vec<Vec<u128>>,
) -> (next: Vec<Position>)
    requires
        1 <= n <= 5,
        table_ok(table@, 26, 15),
        frontier_ok(n as int, views(frontier@)),
        rolls_valid(rolls@),
    ensures
        forall|h: u64|
            #[trigger] final(found)@.contains(h) <==> old(found)@.contains(h) || frontier_child(
                n as int,
                views(frontier@),
                rolls_pairs(rolls@),
                h,
            ),
        forall|k: int|
            0 <= k < next@.len() ==> wf_v(#[trigger] next@[k]@) && next@[k]@.checkers == n as int,
        forall|k: int| 0 <= k < next@.len() ==> final(found)@.contains(hash64(#[trigger] next@[k]@)),
        forall|k: int| 0 <= k < next@.len() ==> !old(found)@.contains(hash64(#[trigger] next@[k]@)),
        forall|k1: int, k2: int|
            0 <= k1 < k2 < next@.len() ==> hash64(next@[k1]@) != hash64(next@[k2]@),
        forall|h: u64|
            final(found)@.contains(h) && !old(found)@.contains(h) ==> has_hash(views(next@), h),
{
    let ghost gfr = views(frontier@);
    let ghost grolls = rolls_pairs(rolls@);
    let ghost f0 = found@;
    let mut next: Vec<Position> = Vec::new();
    let mut i: usize = 0;
    while i < frontier.len()
        invariant
            i <= frontier@.len(),
            1 <= n <= 5,
            table_ok(table@, 26, 15),
            frontier_ok(n as int, gfr),
            rolls_valid(rolls@),
            gfr == views(frontier@),
            grolls == rolls_pairs(rolls@),
            gfr.len() == frontier@.len(),
            grolls.len() == rolls@.len(),
            forall|h: u64|
                #[trigger] found@.contains(h) <==> f0.contains(h) || frontier_child_upto(
                    n as int,
                    gfr,
                    grolls,
                    i as int,
                    h,
                ),
            forall|k: int|
                0 <= k < next@.len() ==> wf_v(#[trigger] next@[k]@) && next@[k]@.checkers
                    == n as int,
            forall|k: int| 0 <= k < next@.len() ==> found@.contains(hash64(#[trigger] next@[k]@)),
            forall|k: int| 0 <= k < next@.len() ==> !f0.contains(hash64(#[trigger] next@[k]@)),
            forall|k1: int, k2: int|
                0 <= k1 < k2 < next@.len() ==> hash64(next@[k1]@) != hash64(next@[k2]@),
            forall|h: u64|
                found@.contains(h) && !f0.contains(h) ==> has_hash(views(next@), h),
        decreases frontier@.len() - i
    {
        let pos = &frontier[i];
        proof {
            assert(gfr[i as int] == pos@);
        }
        let st = game_state(pos);
        if matches!(st, GameState::Ongoing) {
            let mut r: usize = 0;
            while r < rolls.len()
                invariant
                    r <= rolls@.len(),
                    i < frontier@.len(),
                    1 <= n <= 5,
                    table_ok(table@, 26, 15),
                    frontier_ok(n as int, gfr),
                    rolls_valid(rolls@),
                    gfr == views(frontier@),
                    grolls == rolls_pairs(rolls@),
                    gfr.len() == frontier@.len(),
                    grolls.len() == rolls@.len(),
                    pos@ == gfr[i as int],
                    pos.wf(),
                    pos@.checkers == n as int,
                    state_spec(pos@) is Ongoing,
                    forall|h: u64|
                        #[trigger] found@.contains(h) <==> f0.contains(h) || frontier_child_upto(
                            n as int,
                            gfr,
                            grolls,
                            i as int,
                            h,
                        ) || child_upto(n as int, pos@, grolls, r as int, h),
                    forall|k: int|
                        0 <= k < next@.len() ==> wf_v(#[trigger] next@[k]@) && next@[k]@.checkers
                            == n as int,
                    forall|k: int|
                        0 <= k < next@.len() ==> found@.contains(hash64(#[trigger] next@[k]@)),
                    forall|k: int| 0 <= k < next@.len() ==> !f0.contains(hash64(#[trigger] next@[k]@)),
                    forall|k1: int, k2: int|
                        0 <= k1 < k2 < next@.len() ==> hash64(next@[k1]@) != hash64(next@[k2]@),
                    forall|h: u64|
                        found@.contains(h) && !f0.contains(h) ==> has_hash(views(next@), h),
                decreases rolls@.len() - r
            {
                let roll = &rolls[r];
                let cs = successors(pos, roll.d1, roll.d2);
                let ghost gcs = succ_at(n as int, pos@, grolls[r as int]);
                proof {
                    assert(grolls[r as int] == (roll.d1 as int, roll.d2 as int));
                    assert(cs@.map_values(|p: Position| p@) == gcs);
                }
                let mut c: usize = 0;
                while c < cs.len()
                    invariant
                        c <= cs@.len(),
                        r < rolls@.len(),
                        i < frontier@.len(),
                        1 <= n <= 5,
                        table_ok(table@, 26, 15),
                        frontier_ok(n as int, gfr),
                        gfr == views(frontier@),
                        grolls == rolls_pairs(rolls@),
                        gfr.len() == frontier@.len(),
                        grolls.len() == rolls@.len(),
                        pos@ == gfr[i as int],
                        state_spec(pos@) is Ongoing,
                        gcs == succ_at(n as int, pos@, grolls[r as int]),
                        cs@.map_values(|p: Position| p@) == gcs,
                        forall|t: int|
                            0 <= t < cs@.len() ==> wf_v(#[trigger] cs@[t]@) && cs@[t]@.checkers
                                == n as int,
                        forall|h: u64|
                            #[trigger] found@.contains(h) <==> f0.contains(h)
                                || frontier_child_upto(n as int, gfr, grolls, i as int, h)
                                || child_upto(n as int, pos@, grolls, r as int, h) || (exists|t: int|
                                0 <= t < c && hash64(#[trigger] gcs[t]) == h),
                        forall|k: int|
                            0 <= k < next@.len() ==> wf_v(#[trigger] next@[k]@)
                                && next@[k]@.checkers == n as int,
                        forall|k: int|
                            0 <= k < next@.len() ==> found@.contains(hash64(#[trigger] next@[k]@)),
                        forall|k: int|
                            0 <= k < next@.len() ==> !f0.contains(hash64(#[trigger] next@[k]@)),
                        forall|k1: int, k2: int|
                            0 <= k1 < k2 < next@.len() ==> hash64(next@[k1]@) != hash64(
                                next@[k2]@,
                            ),
                        forall|h: u64|
                            found@.contains(h) && !f0.contains(h) ==> has_hash(views(next@), h),
                    decreases cs@.len() - c
                {
                    let child = &cs[c];
                    proof {
                        assert(cs@.map_values(|p: Position| p@)[c as int] == gcs[c as int]);
                        assert(child@ == gcs[c as int]);
                    }
                    let h = hash_u64(child, table);
                    let ghost next0 = next@;
                    let newly = found.insert(h);
                    if newly {
                        next.push(child.clone());
                        proof {
                            assert(views(next@) =~= views(next0).push(
                                next@[next@.len() - 1]@,
                            ));
                        }
                    }
                    proof {
                        assert forall|hh: u64| #[trigger] found@.contains(hh) implies (
                        f0.contains(hh) || frontier_child_upto(n as int, gfr, grolls, i as int, hh)
                            || child_upto(n as int, pos@, grolls, r as int, hh) || (exists|t: int|
                            0 <= t < c + 1 && hash64(#[trigger] gcs[t]) == hh)) by {
                            if hh == h {
                                assert(hash64(gcs[c as int]) == hh);
                            }
                        }
                        assert forall|hh: u64|
                            found@.contains(hh) && !f0.contains(hh) implies has_hash(
                            views(next@),
                            hh,
                        ) by {
                            if newly {
                                if hh == h {
                                    assert(views(next@)[next@.len() - 1] == next@[
                                        next@.len() - 1
                                    ]@);
                                    assert(hash64(views(next@)[next@.len() - 1]) == h);
                                } else {
                                    let k = choose|k: int|
                                        0 <= k < views(next0).len() && hash64(
                                            #[trigger] views(next0)[k],
                                        ) == hh;
                                    assert(views(next@)[k] == views(next0)[k]);
                                }
                            }
                        }
                    }
                    c = c + 1;
                }
                proof {
                    assert forall|h: u64|
                        child_upto(n as int, pos@, grolls, r as int + 1, h) implies (child_upto(
                        n as int,
                        pos@,
                        grolls,
                        r as int,
                        h,
                    ) || (exists|t: int| 0 <= t < gcs.len() && hash64(#[trigger] gcs[t]) == h)) by {
                        let (rr, cc) = choose|rr: int, cc: int|
                            0 <= rr < r as int + 1 && 0 <= cc < succ_at(
                                n as int,
                                pos@,
                                grolls[rr],
                            ).len() && hash64(#[trigger] succ_at(n as int, pos@, grolls[rr])[cc])
                                == h;
                        if rr == r as int {
                            assert(hash64(gcs[cc]) == h);
                        }
                    }
                }
                r = r + 1;
            }
            proof {
                assert forall|h: u64|
                    frontier_child_upto(n as int, gfr, grolls, i as int + 1, h) implies (
                frontier_child_upto(n as int, gfr, grolls, i as int, h) || child_upto(
                    n as int,
                    pos@,
                    grolls,
                    grolls.len() as int,
                    h,
                )) by {
                    let t = choose|t: int|
                        0 <= t < i as int + 1 && is_child(n as int, #[trigger] gfr[t], grolls, h);
                    if t == i as int {
                        assert(child_upto(n as int, pos@, grolls, grolls.len() as int, h));
                    }
                }
            }
        } else {
            proof {
                assert forall|h: u64|
                    frontier_child_upto(n as int, gfr, grolls, i as int + 1, h) implies
                    frontier_child_upto(n as int, gfr, grolls, i as int, h) by {
                    let t = choose|t: int|
                        0 <= t < i as int + 1 && is_child(n as int, #[trigger] gfr[t], grolls, h);
                    assert(t < i as int);
                }
            }
        }
        i = i + 1;
    }
    next
}


/// Clones a batch of positions, value for value.
fn clone_positions(v: &Vec<Position>) -> (r: Vec<Position>)
    ensures
        r@.len() == v@.len(),
        views(r@) =~= views(v@),
{
    let mut r: Vec<Position> = Vec::new();
    let mut i: usize = 0;
    while i < v.len()
        invariant
            i <= v@.len(),
            r@.len() == i,
            forall|t: int| 0 <= t < i ==> #[trigger] r@[t]@ == v@[t]@,
        decreases v@.len() - i
    {
        r.push(v[i].clone());
        i = i + 1;
    }
    r
}

/// The indices of a batch of positions, as a set of integers.
pub open spec fn hashes_of(rs: Seq<PosV>) -> Set<int> {
    Set::new(|j: int| 0 <= j < 0x10000000000000000 && has_hash(rs, j as u64))
}

/// A duplicate-free batch has exactly as many indices as members.
proof fn lemma_hash_set_card(rs: Seq<PosV>)
    requires
        forall|k1: int, k2: int| 0 <= k1 < k2 < rs.len() ==> hash64(rs[k1]) != hash64(rs[k2]),
    ensures
        hashes_of(rs).finite(),
        hashes_of(rs).len() == rs.len(),
    decreases rs.len()
{
    if rs.len() == 0 {
        assert(hashes_of(rs) =~= Set::<int>::empty());
    } else {
        let head = rs.drop_last();
        lemma_hash_set_card(head);
        let last = hash64(rs.last()) as int;
        assert forall|j: int| hashes_of(rs).contains(j) implies hashes_of(head).insert(
            last,
        ).contains(j) by {
            let k = choose|k: int| 0 <= k < rs.len() && hash64(#[trigger] rs[k]) == j as u64;
            if k < rs.len() - 1 {
                assert(head[k] == rs[k]);
                assert(has_hash(head, j as u64));
            }
        }
        assert forall|j: int| hashes_of(head).insert(last).contains(j) implies hashes_of(
            rs,
        ).contains(j) by {
            if j == last {
                assert(hash64(rs[rs.len() - 1]) == j as u64);
            } else {
                let k = choose|k: int| 0 <= k < head.len() && hash64(#[trigger] head[k]) == j as u64;
                assert(rs[k] == head[k]);
            }
        }
        assert(hashes_of(rs) =~= hashes_of(head).insert(last));
        // The last index is fresh, so the insertion grows the set by one.
        assert(!hashes_of(head).contains(last));
    }
}

/// A duplicate-free batch of one variant's positions cannot outgrow the
/// variant's index range.
pub proof fn lemma_batch_len_bound(n: int, rs: Seq<PosV>)
    requires
        1 <= n <= 5,
        forall|k: int| 0 <= k < rs.len() ==> wf_v(#[trigger] rs[k]) && rs[k].checkers == n,
        forall|k1: int, k2: int| 0 <= k1 < k2 < rs.len() ==> hash64(rs[k1]) != hash64(rs[k2]),
    ensures
        rs.len() <= possible_spec(n),
{
    lemma_hash_set_card(rs);
    assert forall|j: int| hashes_of(rs).contains(j) implies vstd::set_lib::set_int_range(
        0,
        possible_spec(n),
    ).contains(j) by {
        let k = choose|k: int| 0 <= k < rs.len() && hash64(#[trigger] rs[k]) == j as u64;
        lemma_hash64_exact(rs[k]);
        assert(j == hash_spec(rs[k]));
    }
    crate::comb::lemma_mcomb_pos(26, n);
    assert(possible_spec(n) >= 0) by (nonlinear_arith)
        requires
            crate::comb::mcomb_spec(26, n) >= 1,
            possible_spec(n) == crate::comb::mcomb_spec(26, n) * crate::comb::mcomb_spec(26, n),
    ;
    vstd::set_lib::lemma_int_range(0, possible_spec(n));
    vstd::set_lib::lemma_len_subset(
        hashes_of(rs),
        vstd::set_lib::set_int_range(0, possible_spec(n)),
    );
}

/// Soundness of discovery order: every member is an opening child of the
/// start or a child of an earlier member, so nothing outside the reachable
/// set ever enters the result.
pub open spec fn sound_prefix(n: int, start: PosV, rs: Seq<PosV>) -> bool {
    forall|k: int|
        0 <= k < rs.len() ==> is_child(n, start, opening_rolls_spec(), hash64(#[trigger] rs[k]))
            || (exists|k2: int|
            0 <= k2 < k && #[trigger] is_child(n, rs[k2], all_rolls_spec(), hash64(rs[k])))
}

/// What an enumeration run guarantees: every member is a well-formed
/// position of the variant, no index repeats, every member descends from the
/// start, and — when the expansion ran to exhaustion — the set also holds
/// every opening child of the start and every child of each of its own
/// ongoing members.  Soundness and closure together pin the finished set to
/// exactly the reachable set, whatever the expansion order or chunking.
pub open spec fn enumeration_ok(n: int, start: PosV, result: Seq<PosV>, complete: bool) -> bool {
    &&& forall|k: int| 0 <= k < result.len() ==> wf_v(#[trigger] result[k]) && result[k].checkers == n
    &&& forall|k1: int, k2: int|
        0 <= k1 < k2 < result.len() ==> hash64(result[k1]) != hash64(result[k2])
    &&& sound_prefix(n, start, result)
    &&& complete ==> (forall|h: u64|
        is_child(n, start, opening_rolls_spec(), h) ==> has_hash(result, h))
    &&& complete ==> (forall|k: int, h: u64|
        0 <= k < result.len() && #[trigger] is_child(n, result[k], all_rolls_spec(), h)
            ==> has_hash(result, h))
}

/// The outcome of an enumeration run: the accumulated distinct positions,
/// and whether expansion ran to exhaustion within the depth budget.
pub struct Enumeration {
    pub positions: Vec<Position>,
    pub complete: bool,
}

/// Breadth-first enumeration of every position reachable from `start`:
/// the first ply uses the opening roll set, every later ply the full 21-roll
/// set; children are deduplicated by dense index, and finished positions are
/// recorded but never expanded.  Returns the accumulated positions and
/// whether the expansion ran to exhaustion within `max_depth` plies; when it
/// did, the result is duplicate-free and closed: it holds every opening
/// child of `start` and every child of each of its own ongoing members.
/// Exhaustion is owed whenever the depth budget covers the variant's whole
/// index range: every depth that leaves a frontier behind has grown the
/// duplicate-free result by at least one position, and the result can never
/// outgrow that range.
pub fn enumerate_reachable(
    n: u8,
    start: &Position,
    max_depth: usize,
    table: &Vec<Vec<u128>>,
) -> (r: Enumeration)
    requires
        1 <= n <= 5,
        start.wf(),
        start@.checkers == n as int,
        (state_spec(start@) is Ongoing),
        table_ok(table@, 26, 15),
    ensures
        enumeration_ok(n as int, start@, views(r.positions@), r.complete),
        max_depth as int >= possible_spec(n as int) ==> r.complete,
{
    let rolls21 = all_rolls();
    let opening = opening_rolls();
    proof {
        assert(rolls_pairs(rolls21@) =~= all_rolls_spec());
        assert(rolls_pairs(opening@) =~= opening_rolls_spec());
    }
    let mut found: HashSet<u64> = HashSet::new();
    let mut seedf: Vec<Position> = Vec::new();
    seedf.push(start.clone());
    let mut frontier = expand(n, &seedf, &opening, &mut found, table);
    let mut result = clone_positions(&frontier);
    let ghost mut gdone: Seq<PosV> = Seq::empty();
    proof {
        assert forall|h: u64| #[trigger] found@.contains(h) implies is_child(
            n as int,
            start@,
            opening_rolls_spec(),
            h,
        ) by {
            let i = choose|i: int|
                0 <= i < views(seedf@).len() && is_child(
                    n as int,
                    #[trigger] views(seedf@)[i],
                    opening_rolls_spec(),
                    h,
                );
            assert(views(seedf@)[0] == start@);
        }
        assert forall|h: u64|
            is_child(n as int, start@, opening_rolls_spec(), h) implies found@.contains(h) by {
            assert(views(seedf@)[0] == start@);
            assert(frontier_child(n as int, views(seedf@), opening_rolls_spec(), h));
        }
        assert(views(result@) =~= gdone + views(frontier@));
        assert forall|k: int| 0 <= k < result@.len() implies #[trigger] result@[k]@
            == frontier@[k]@ by {
            assert(views(result@)[k] == result@[k]@);
            assert(views(frontier@)[k] == frontier@[k]@);
        }
        assert forall|k: int|
            0 <= k < views(result@).len() implies is_child(
            n as int,
            start@,
            opening_rolls_spec(),
            hash64(#[trigger] views(result@)[k]),
        ) by {
            assert(views(result@)[k] == result@[k]@);
            assert(result@[k]@ == frontier@[k]@);
            assert(found@.contains(hash64(frontier@[k as int]@)));
        }
        assert(sound_prefix(n as int, start@, views(result@)));
    }
    let mut depth: usize = 0;
    let mut complete: bool = false;
    while !complete && depth < max_depth
        invariant
            1 <= n <= 5,
            depth <= max_depth,
            frontier@.len() > 0 ==> result@.len() >= depth + 1,
            table_ok(table@, 26, 15),
            rolls_pairs(rolls21@) == all_rolls_spec(),
            rolls_valid(rolls21@),
            frontier_ok(n as int, views(frontier@)),
            forall|k: int|
                0 <= k < result@.len() ==> wf_v(#[trigger] result@[k]@) && result@[k]@.checkers
                    == n as int,
            forall|k1: int, k2: int|
                0 <= k1 < k2 < result@.len() ==> hash64(result@[k1]@) != hash64(result@[k2]@),
            forall|h: u64| #[trigger] found@.contains(h) <==> has_hash(views(result@), h),
            forall|h: u64|
                is_child(n as int, start@, opening_rolls_spec(), h) ==> found@.contains(h),
            views(result@) == gdone + views(frontier@),
            sound_prefix(n as int, start@, views(result@)),
            forall|k: int, h: u64|
                0 <= k < gdone.len() && #[trigger] is_child(n as int, gdone[k], all_rolls_spec(), h)
                    ==> found@.contains(h),
            complete ==> frontier@.len() == 0,
        decreases max_depth - depth, (if complete {
            0int
        } else {
            1int
        })
    {
        if frontier.len() == 0 {
            complete = true;
        } else {
        let ghost found0 = found@;
        let ghost oldfront = views(frontier@);
        let ghost oldresult = views(result@);
        let ghost gdone0 = gdone;
        let next = expand(n, &frontier, &rolls21, &mut found, table);
        let mut batch = clone_positions(&next);
        result.append(&mut batch);
        proof {
            gdone = gdone + oldfront;
            assert(views(result@) =~= oldresult + views(next@));
            assert(views(result@) =~= gdone + views(next@));
            // The dedup set still mirrors the accumulated result.
            assert forall|h: u64| #[trigger] found@.contains(h) implies has_hash(
                views(result@),
                h,
            ) by {
                if found0.contains(h) {
                    let k = choose|k: int|
                        0 <= k < oldresult.len() && hash64(#[trigger] oldresult[k]) == h;
                    assert(views(result@)[k] == oldresult[k]);
                } else {
                    let k = choose|k: int|
                        0 <= k < views(next@).len() && hash64(#[trigger] views(next@)[k]) == h;
                    assert(views(result@)[oldresult.len() + k] == views(next@)[k]);
                }
            }
            assert forall|h: u64| has_hash(views(result@), h) implies found@.contains(h) by {
                let k = choose|k: int|
                    0 <= k < views(result@).len() && hash64(#[trigger] views(result@)[k]) == h;
                if k < oldresult.len() {
                    assert(views(result@)[k] == oldresult[k]);
                } else {
                    assert(views(result@)[k] == views(next@)[k - oldresult.len()]);
                }
            }
            // Distinctness across the extended result.
            assert forall|k1: int, k2: int|
                0 <= k1 < k2 < result@.len() implies hash64(result@[k1]@) != hash64(
                result@[k2]@,
            ) by {
                if k1 < oldresult.len() && k2 >= oldresult.len() {
                    assert(views(result@)[k1] == oldresult[k1]);
                    assert(views(result@)[k2] == views(next@)[k2 - oldresult.len()]);
                    assert(found0.contains(hash64(oldresult[k1])));
                } else if k1 >= oldresult.len() {
                    assert(views(result@)[k1] == views(next@)[k1 - oldresult.len()]);
                    assert(views(result@)[k2] == views(next@)[k2 - oldresult.len()]);
                } else {
                    assert(views(result@)[k1] == oldresult[k1]);
                    assert(views(result@)[k2] == oldresult[k2]);
                }
            }
            // Soundness: every new member is a child of an old-frontier
            // member, which sits at a strictly earlier result index.
            assert forall|k: int|
                0 <= k < views(result@).len() implies (is_child(
                n as int,
                start@,
                opening_rolls_spec(),
                hash64(#[trigger] views(result@)[k]),
            ) || (exists|k2: int|
                0 <= k2 < k && #[trigger] is_child(
                    n as int,
                    views(result@)[k2],
                    all_rolls_spec(),
                    hash64(views(result@)[k]),
                ))) by {
                if k < oldresult.len() {
                    assert(views(result@)[k] == oldresult[k]);
                    if !is_child(n as int, start@, opening_rolls_spec(), hash64(oldresult[k])) {
                        let k2 = choose|k2: int|
                            0 <= k2 < k && #[trigger] is_child(
                                n as int,
                                oldresult[k2],
                                all_rolls_spec(),
                                hash64(oldresult[k]),
                            );
                        assert(views(result@)[k2] == oldresult[k2]);
                    }
                } else {
                    let j = k - oldresult.len();
                    assert(views(result@)[k] == views(next@)[j]);
                    assert(views(next@)[j] == next@[j]@);
                    let h = hash64(next@[j]@);
                    assert(found@.contains(h) && !found0.contains(h));
                    assert(frontier_child(n as int, oldfront, all_rolls_spec(), h));
                    let i = choose|i: int|
                        0 <= i < oldfront.len() && is_child(
                            n as int,
                            #[trigger] oldfront[i],
                            all_rolls_spec(),
                            h,
                        );
                    let k2 = gdone0.len() + i;
                    assert(oldresult[k2] == oldfront[i]);
                    assert(views(result@)[k2] == oldresult[k2]);
                    assert(k2 < oldresult.len());
                }
            }
            // Closure over the newly finished layer.
            assert forall|k: int, h: u64|
                0 <= k < gdone.len() && #[trigger] is_child(n as int, gdone[k], all_rolls_spec(), h)
                    implies found@.contains(h) by {
                if k >= gdone.len() - oldfront.len() {
                    let i = k - (gdone.len() - oldfront.len());
                    assert(gdone[k] == oldfront[i]);
                    assert(frontier_child(n as int, oldfront, all_rolls_spec(), h));
                }
            }
        }
        frontier = next;
        proof {
            assert forall|k: int| 0 <= k < result@.len() implies wf_v(#[trigger] result@[k]@)
                && result@[k]@.checkers == n as int by {
                if k < oldresult.len() {
                    assert(result@[k]@ == oldresult[k]);
                } else {
                    assert(result@[k]@ == views(frontier@)[k - oldresult.len()]);
                }
            }
        }
        depth = depth + 1;
        }
    }
    proof {
        if complete || frontier@.len() == 0 {
            assert(views(result@) =~= gdone);
        }
    }
    if frontier.len() == 0 {
        complete = true;
    }
    proof {
        // A budget that covers the whole index range always suffices: an
        // unfinished run would have grown the duplicate-free result past
        // the range, which the cardinality bound forbids.
        if !complete && max_depth as int >= possible_spec(n as int) {
            assert(frontier@.len() > 0);
            assert(depth == max_depth);
            assert(views(result@).len() >= max_depth + 1);
            lemma_batch_len_bound(n as int, views(result@));
            assert(false);
        }
        if complete {
            assert(views(result@) =~= gdone);
            assert forall|k: int, h: u64|
                0 <= k < result@.len() && #[trigger] is_child(
                    n as int,
                    result@[k]@,
                    all_rolls_spec(),
                    h,
                ) implies has_hash(views(result@), h) by {
                assert(views(result@)[k] == result@[k]@);
                assert(gdone[k] == result@[k]@);
            }
        }
    }
    proof {
        let rs = views(result@);
        assert forall|k: int| 0 <= k < rs.len() implies wf_v(#[trigger] rs[k]) && rs[k].checkers
            == n as int by {
            assert(rs[k] == result@[k]@);
        }
        assert forall|k1: int, k2: int|
            0 <= k1 < k2 < rs.len() implies hash64(rs[k1]) != hash64(rs[k2]) by {
            assert(rs[k1] == result@[k1]@);
            assert(rs[k2] == result@[k2]@);
        }
        if complete {
            assert forall|h: u64|
                is_child(n as int, start@, opening_rolls_spec(), h) implies has_hash(rs, h) by {
                assert(found@.contains(h));
            }
        }
    }
    let out = Enumeration { positions: result, complete };
    out
}

} // verus!
