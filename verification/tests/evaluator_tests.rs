use equity_solver::comb::precompute_mcomb;
use equity_solver::dice::{all_rolls, opening_rolls};
use equity_solver::enumerate::hash_u64;
use equity_solver::equity::SCALE;
use equity_solver::evaluator::{Evaluator, HyperEvaluator, RandomEvaluator};
use equity_solver::position::{hyper_start, GameResult};
use equity_solver::probabilities::Probabilities;

#[test]
fn roll_set_weights_sum_to_thirty_six() {
    let rolls = all_rolls();
    assert_eq!(rolls.len(), 21);
    let total: u32 = rolls.iter().map(|r| r.weight as u32).sum();
    assert_eq!(total, 36);
    for r in &rolls {
        assert!(1 <= r.d1 && r.d1 <= r.d2 && r.d2 <= 6);
        assert_eq!(r.weight, if r.d1 == r.d2 { 1 } else { 2 });
    }
    let opening = opening_rolls();
    assert_eq!(opening.len(), 15);
    for r in &opening {
        assert!(r.d1 < r.d2);
        assert_eq!(r.weight, 1);
    }
}

#[test]
fn probabilities_equity_formula() {
    let p = Probabilities {
        win_n: SCALE / 2,
        win_g: SCALE / 10,
        win_b: 0,
        lose_n: SCALE / 4,
        lose_g: 0,
        lose_b: SCALE / 10,
    };
    // 0.5 + 2*0.1 + 0 - 0.25 - 0 - 3*0.1 = 0.15 points.
    assert_eq!(p.equity(), SCALE / 2 + 2 * (SCALE / 10) - SCALE / 4 - 3 * (SCALE / 10));
    let sure_win = Probabilities::from_result(&GameResult::WinBackgammon);
    assert_eq!(sure_win.equity(), 3 * SCALE);
    let sure_loss = Probabilities::from_result(&GameResult::LoseNormal);
    assert_eq!(sure_loss.equity(), -SCALE);
}

#[test]
fn random_probabilities_are_normalized() {
    let e = RandomEvaluator::new();
    for _ in 0..50 {
        let p = e.random_probabilities();
        let parts = [p.win_n, p.win_g, p.win_b, p.lose_n, p.lose_g, p.lose_b];
        for v in parts {
            assert!(0 <= v && v <= SCALE);
        }
        assert_eq!(parts.iter().sum::<i64>(), SCALE);
    }
}

#[test]
fn hyper_evaluator_rejects_short_tables() {
    assert!(HyperEvaluator::new(vec![Probabilities::empty(); 10]).is_none());
    let bad = vec![
        Probabilities {
            win_n: 2 * SCALE,
            win_g: 0,
            win_b: 0,
            lose_n: 0,
            lose_g: 0,
            lose_b: 0,
        };
        3276 * 3276
    ];
    assert!(HyperEvaluator::new(bad).is_none());
}

#[test]
fn hyper_evaluator_looks_up_by_index() {
    let table = precompute_mcomb(26, 15);
    let start = hyper_start(3);
    let idx = hash_u64(&start, &table) as usize;
    let mut probs = vec![Probabilities::empty(); 3276 * 3276];
    probs[idx] = Probabilities {
        win_n: SCALE / 2,
        win_g: 0,
        win_b: 0,
        lose_n: SCALE / 2,
        lose_g: 0,
        lose_b: 0,
    };
    let h = HyperEvaluator::new(probs).expect("full table");
    let got = h.eval(&start);
    assert_eq!(got.win_n, SCALE / 2);
    assert_eq!(got.lose_n, SCALE / 2);
    assert_eq!(got.equity(), 0);
}

#[test]
fn hyper_best_position_minimizes_stored_equity() {
    let table = precompute_mcomb(26, 15);
    let start = hyper_start(3);
    // With an all-zero table every move ties; the chosen move must still be
    // one of the legal successors.
    let probs = vec![Probabilities::empty(); 3276 * 3276];
    let h = HyperEvaluator::new(probs).expect("full table");
    let best = h.best_position(&start, 6, 5);
    let children = equity_solver::movegen::successors(&start, 6, 5);
    assert!(children.iter().any(|c| c.same_as(&best)));
}
