//! End-to-end runs of the solver on the one- and two-checker hypergammon
//! variants, with the real game-rules crate generating the moves.

use std::collections::HashSet;
use equity_solver::codec::{decode, encode};
use equity_solver::comb::precompute_mcomb;
use equity_solver::enumerate::{enumerate_reachable, expand, hash_u64};
use equity_solver::equity::value_iterate;
use equity_solver::equity::SCALE;
use equity_solver::movegen::successors;
use equity_solver::dice::{all_rolls, opening_rolls};
use equity_solver::index::num_possible;
use equity_solver::position::{hyper_start, game_state, position_from_pips, GameState, Position};
use equity_solver::solver::{check_open, create_posmap, init_equities};
use bkgm::State;

#[test]
fn successors_produce_moved_positions() {
    // The wrapper must hand back genuinely new positions, not its argument.
    let start = hyper_start(3);
    let table = precompute_mcomb(26, 15);
    let start_hash = hash_u64(&start, &table);
    let children = successors(&start, 1, 2);
    assert!(!children.is_empty());
    for child in &children {
        assert_eq!(child.checkers, 3);
        assert!(hash_u64(child, &table) != start_hash);
    }
    // Cross-check the successor set against the game-rules crate itself.
    let direct = bkgm::legal_positions_with::<bkgm::ClassicRules, 3>(
        bkgm::HYPERGAMMON,
        &bkgm::Dice::new(1, 2),
    );
    assert_eq!(children.len(), direct.len());
    for (ours, theirs) in children.iter().zip(direct.iter()) {
        let pips: [i8; 26] = (*theirs).into();
        assert_eq!(ours.pips.as_slice(), &pips[..]);
        assert_eq!(ours.x_off, theirs.x_off());
        assert_eq!(ours.o_off, theirs.o_off());
    }
}

#[test]
fn enumeration_is_chunk_invariant() {
    // Expanding a frontier whole or in two chunks grows the dedup set to the
    // same set of indices.
    let table = precompute_mcomb(26, 15);
    let start = hyper_start(2);
    let opening = opening_rolls();
    let rolls = all_rolls();
    let seed = vec![start];
    let mut found_a: HashSet<u64> = HashSet::new();
    let frontier = expand(2, &seed, &opening, &mut found_a, &table);
    let mut found_whole = found_a.clone();
    let _ = expand(2, &frontier, &rolls, &mut found_whole, &table);

    let mid = frontier.len() / 2;
    let mut first: Vec<Position> = Vec::new();
    let mut second: Vec<Position> = Vec::new();
    for (i, p) in frontier.iter().enumerate() {
        if i < mid {
            first.push(p.clone());
        } else {
            second.push(p.clone());
        }
    }
    let mut found_chunked = found_a.clone();
    let _ = expand(2, &second, &rolls, &mut found_chunked, &table);
    let _ = expand(2, &first, &rolls, &mut found_chunked, &table);

    assert_eq!(found_whole.len(), found_chunked.len());
    for h in found_whole.iter() {
        assert!(found_chunked.contains(h));
    }
}

#[test]
fn enumeration_is_idempotent() {
    let table = precompute_mcomb(26, 15);
    let start = hyper_start(1);
    let first = enumerate_reachable(1, &start, 1000, &table);
    let second = enumerate_reachable(1, &start, 1000, &table);
    assert!(first.complete);
    assert!(second.complete);
    assert_eq!(first.positions.len(), second.positions.len());
    let hashes_a: HashSet<u64> =
        first.positions.iter().map(|p| hash_u64(p, &table)).collect();
    let hashes_b: HashSet<u64> =
        second.positions.iter().map(|p| hash_u64(p, &table)).collect();
    assert_eq!(hashes_a, hashes_b);
    // No duplicates: as many distinct indices as positions.
    assert_eq!(hashes_a.len(), first.positions.len());
}

#[test]
fn round_trip_over_unique_set() {
    let table = precompute_mcomb(26, 15);
    let start = hyper_start(1);
    let run = enumerate_reachable(1, &start, 1000, &table);
    assert!(run.complete);
    for p in &run.positions {
        let rec = encode(p);
        let back = decode(&rec, 1).expect("own record must decode");
        assert!(back.same_as(p));
    }
}

#[test]
fn one_checker_variant_end_to_end() {
    let table = precompute_mcomb(26, 15);
    let start = hyper_start(1);
    let run = enumerate_reachable(1, &start, 1000, &table);
    assert!(run.complete);
    let positions = run.positions;
    assert!(!positions.is_empty());

    let m = num_possible(1, &table) as usize;
    assert_eq!(m, 676);
    let entries = create_posmap(&positions, 1, &table, m);
    let init = init_equities(&positions, 1, &table, m);

    // Terminal cells are seeded with their outcome values.
    let mut n_terminal = 0;
    for p in &positions {
        if let GameState::GameOver(res) = game_state(p) {
            let idx = hash_u64(p, &table) as usize;
            assert_eq!(init[idx], (res.value() as i64) * SCALE);
            n_terminal += 1;
        }
    }
    assert!(n_terminal > 0);

    // Converge to one hundredth of a thousandth of a point.
    let out = value_iterate(&entries, init.clone(), 100, 500);
    assert!(out.converged);
    assert!(out.max_err < 100);

    // Game-over cells never moved (their cells have no transition entry).
    for p in &positions {
        if let GameState::GameOver(_) = game_state(p) {
            let idx = hash_u64(p, &table) as usize;
            assert_eq!(out.values[idx], init[idx]);
        }
    }

    // The opening probe reads the converged table and stays in range; the
    // values are stored from the side to move's perspective, and in this
    // symmetric race moving first is an advantage, so the probe must come
    // out positive.
    let probe = check_open(&start, &out.values, &table);
    assert!(probe >= -3 * SCALE && probe <= 3 * SCALE);
    assert!(probe > 0);
}

#[test]
fn hand_derived_equity_for_an_immediate_bear_off() {
    // A one-checker position with no possible contact: the mover's checker
    // sits on point 2 and bears off on any of the fifteen opening rolls
    // (even 2-1 plays 2/off directly), while the opponent has borne off
    // nothing and sits outside the mover's home board.  Every roll wins a
    // gammon, so the exact equity of the position is +2 points, and the
    // converged probe must reproduce it exactly.
    let table = precompute_mcomb(26, 15);
    let mut pips = vec![0i8; 26];
    pips[2] = 1;
    pips[24] = -1;
    let p = position_from_pips(1, pips).expect("valid board");
    assert_eq!(game_state(&p), GameState::Ongoing);
    let run = enumerate_reachable(1, &p, 676, &table);
    assert!(run.complete);
    let m = num_possible(1, &table) as usize;
    let entries = create_posmap(&run.positions, 1, &table, m);
    let init = init_equities(&run.positions, 1, &table, m);
    let out = value_iterate(&entries, init, 100, 500);
    assert!(out.converged);
    let probe = check_open(&p, &out.values, &table);
    assert_eq!(probe, 2 * SCALE);
}

#[test]
fn two_checker_variant_enumerates_and_converges() {
    let table = precompute_mcomb(26, 15);
    let start = hyper_start(2);
    let run = enumerate_reachable(2, &start, 10000, &table);
    assert!(run.complete);
    let positions = run.positions;
    let m = num_possible(2, &table) as usize;
    assert_eq!(m, 351 * 351);
    assert!(positions.len() <= m);

    let entries = create_posmap(&positions, 2, &table, m);
    let init = init_equities(&positions, 2, &table, m);
    let out = value_iterate(&entries, init.clone(), 100, 500);
    assert!(out.converged);

    // Every ongoing cell holds a value within the outcome range.
    for p in &positions {
        let idx = hash_u64(p, &table) as usize;
        assert!(out.values[idx] >= -3 * SCALE && out.values[idx] <= 3 * SCALE);
    }
}
