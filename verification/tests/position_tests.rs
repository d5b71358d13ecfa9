use equity_solver::codec::{decode, encode};
use equity_solver::comb::precompute_mcomb;
use equity_solver::index::dbhash;
use equity_solver::position::{
    hyper_start, position_from_pips, GameResult, GameState, game_state,
};
use bkgm::State;

fn start_pips(n: usize) -> Vec<i8> {
    let mut pips = vec![0i8; 26];
    for j in 1..=n {
        pips[j] = -1;
        pips[25 - j] = 1;
    }
    pips
}

#[test]
fn hyper_start_layouts() {
    for n in 1..=5u8 {
        let start = hyper_start(n);
        assert_eq!(start.checkers, n);
        assert_eq!(start.x_off, 0);
        assert_eq!(start.o_off, 0);
        assert_eq!(start.pips, start_pips(n as usize));
    }
}

#[test]
fn from_pips_rejects_bad_boards() {
    // A mover checker on the opponent's bar.
    let mut pips = vec![0i8; 26];
    pips[0] = 2;
    pips[24] = 1;
    assert!(position_from_pips(3, pips).is_none());
    // Too many checkers for the variant.
    let mut pips = vec![0i8; 26];
    pips[5] = 4;
    assert!(position_from_pips(3, pips).is_none());
    // Wrong length.
    assert!(position_from_pips(3, vec![0i8; 25]).is_none());
}

#[test]
fn from_pips_derives_off_counts() {
    let mut pips = vec![0i8; 26];
    pips[5] = 2; // mover has two on the board, one off
    pips[20] = -1; // opponent has one on the board, two off
    let p = position_from_pips(3, pips).expect("valid board");
    assert_eq!(p.x_off, 1);
    assert_eq!(p.o_off, 2);
}

#[test]
fn game_state_classification() {
    // Ongoing start.
    let start = hyper_start(3);
    assert_eq!(game_state(&start), GameState::Ongoing);
    // Mover borne off everything, opponent has one off: plain win.
    let mut pips = vec![0i8; 26];
    pips[10] = -2;
    let p = position_from_pips(3, pips).expect("valid");
    assert_eq!(p.x_off, 3);
    assert_eq!(p.o_off, 1);
    assert_eq!(game_state(&p), GameState::GameOver(GameResult::WinNormal));
    // Opponent has nothing off and nothing in the mover home: gammon.
    let mut pips = vec![0i8; 26];
    pips[10] = -3;
    let p = position_from_pips(3, pips).expect("valid");
    assert_eq!(game_state(&p), GameState::GameOver(GameResult::WinGammon));
    // Opponent still in the mover's home board: backgammon.
    let mut pips = vec![0i8; 26];
    pips[3] = -3;
    let p = position_from_pips(3, pips).expect("valid");
    assert_eq!(game_state(&p), GameState::GameOver(GameResult::WinBackgammon));
    // Mirror: the mover loses a gammon.
    let mut pips = vec![0i8; 26];
    pips[10] = 3;
    let p = position_from_pips(3, pips).expect("valid");
    assert_eq!(game_state(&p), GameState::GameOver(GameResult::LoseGammon));
}

#[test]
fn reverse_is_an_involution_and_negates_value() {
    let all = [
        GameResult::WinNormal,
        GameResult::WinGammon,
        GameResult::WinBackgammon,
        GameResult::LoseNormal,
        GameResult::LoseGammon,
        GameResult::LoseBackgammon,
    ];
    for r in all {
        assert_eq!(r.reverse().reverse(), r);
        assert_eq!(r.reverse().value(), -r.value());
    }
}

#[test]
fn encode_decode_round_trip_start_positions() {
    for n in 1..=5u8 {
        let start = hyper_start(n);
        let rec = encode(&start);
        assert_eq!(rec.len(), 26);
        let back = decode(&rec, n).expect("decoding its own record");
        assert!(back.same_as(&start));
    }
}

#[test]
fn decode_rejects_corrupt_records() {
    let start = hyper_start(3);
    let mut rec = encode(&start);
    rec[1] = 255; // out-of-range occupancy byte
    assert!(decode(&rec, 3).is_none());
    let rec2 = vec![15u8; 10]; // wrong length
    assert!(decode(&rec2, 3).is_none());
}

#[test]
fn dbhash_start_matches_game_rules_crate() {
    let table = precompute_mcomb(26, 15);
    let ours3 = dbhash(&hyper_start(3), &table);
    assert_eq!(ours3, bkgm::HYPERGAMMON.dbhash() as u128);
    let ours2 = dbhash(&hyper_start(2), &table);
    assert_eq!(ours2, bkgm::HYPERGAMMON2.dbhash() as u128);
    let ours4 = dbhash(&hyper_start(4), &table);
    assert_eq!(ours4, bkgm::HYPERGAMMON4.dbhash() as u128);
}

#[test]
fn dbhash_distinct_positions_distinct_indices() {
    let table = precompute_mcomb(26, 15);
    // All single-checker-each boards with both checkers on points: indices
    // must be pairwise distinct and in range.
    let m = 26u128 * 26;
    let mut seen = std::collections::HashSet::new();
    for a in 1..=24usize {
        for b in 1..=24usize {
            let mut pips = vec![0i8; 26];
            pips[a] = 1;
            if a == b {
                continue;
            }
            pips[b] = -1;
            let p = position_from_pips(1, pips).expect("valid");
            let h = dbhash(&p, &table);
            assert!(h < m);
            assert!(seen.insert(h), "index {} repeated", h);
        }
    }
}

#[test]
fn dbhash_handles_the_largest_variant() {
    // The classic fifteen-checker board: its index range squares a
    // ten-digit coefficient, which only 128-bit arithmetic can hold.
    let table = precompute_mcomb(26, 15);
    let mut pips = vec![0i8; 26];
    pips[24] = 2;
    pips[13] = 5;
    pips[8] = 3;
    pips[6] = 5;
    pips[1] = -2;
    pips[12] = -5;
    pips[17] = -3;
    pips[19] = -5;
    let p = position_from_pips(15, pips).expect("classic start is valid");
    let h = dbhash(&p, &table);
    let possible = 40225345056u128 * 40225345056u128;
    assert!(h < possible);
}
