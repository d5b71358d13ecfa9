//! Outcome distributions in fixed point: the probability of each of the six
//! game results, scaled so that certainty is `SCALE`.

use vstd::prelude::*;
use crate::equity::SCALE;
use crate::position::GameResult;

verus! {

/// The probability of each outcome class, in `SCALE` units.
#[derive(Clone, Copy)]
pub struct Probabilities {
    pub win_n: i64,
    pub win_g: i64,
    pub win_b: i64,
    pub lose_n: i64,
    pub lose_g: i64,
    pub lose_b: i64,
}

/// Every component is a probability: within `[0, SCALE]`.
pub open spec fn probs_ok(p: Probabilities) -> bool {
    &&& 0 <= p.win_n <= SCALE
    &&& 0 <= p.win_g <= SCALE
    &&& 0 <= p.win_b <= SCALE
    &&& 0 <= p.lose_n <= SCALE
    &&& 0 <= p.lose_g <= SCALE
    &&& 0 <= p.lose_b <= SCALE
}

/// The distribution's expected signed outcome, in `SCALE` units per point.
pub open spec fn equity_spec(p: Probabilities) -> int {
    p.win_n + 2 * p.win_g + 3 * p.win_b - p.lose_n - 2 * p.lose_g - 3 * p.lose_b
}

impl Probabilities {
    /// The all-zero distribution.
    pub fn empty() -> (r: Probabilities)
        ensures
            r.win_n == 0 && r.win_g == 0 && r.win_b == 0,
            r.lose_n == 0 && r.lose_g == 0 && r.lose_b == 0,
            probs_ok(r),
    {
        Probabilities { win_n: 0, win_g: 0, win_b: 0, lose_n: 0, lose_g: 0, lose_b: 0 }
    }

    /// The certain distribution of a decided game.
    pub fn from_result(result: &GameResult) -> (r: Probabilities)
        ensures
            probs_ok(r),
            equity_spec(r) == crate::position::result_value(*result) * SCALE,
            r.win_n + r.win_g + r.win_b + r.lose_n + r.lose_g + r.lose_b == SCALE,
    {
        let mut r = Probabilities::empty();
        match result {
            GameResult::WinNormal => {
                r.win_n = SCALE;
            },
            GameResult::WinGammon => {
                r.win_g = SCALE;
            },
            GameResult::WinBackgammon => {
                r.win_b = SCALE;
            },
            GameResult::LoseNormal => {
                r.lose_n = SCALE;
            },
            GameResult::LoseGammon => {
                r.lose_g = SCALE;
            },
            GameResult::LoseBackgammon => {
                r.lose_b = SCALE;
            },
        }
        r
    }

    /// The expected signed outcome of the distribution.
    pub fn equity(&self) -> (r: i64)
        requires
            probs_ok(*self),
        ensures
            r as int == equity_spec(*self),
            -6 * SCALE <= r <= 6 * SCALE,
    {
        self.win_n + 2 * self.win_g + 3 * self.win_b - self.lose_n - 2 * self.lose_g - 3
            * self.lose_b
    }
}

} // verus!
