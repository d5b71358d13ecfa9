//! The board model: one side-to-move position of a finite-checker
//! backgammon-style variant, with its checker-conservation invariant, the
//! game-over classification, and the variant starting positions.
//!
//! A position holds 26 signed occupancies: index 0 is the opponent's bar
//! (never positive), indices 1 through 24 are the points from the mover's
//! view, and index 25 is the mover's bar (never negative).  Positive numbers
//! are the mover's checkers, negative numbers the opponent's.

use vstd::prelude::*;

verus! {

/// Ghost image of a position: everything the contracts speak about.
#[verifier::ext_equal]
pub struct PosV {
    pub checkers: int,
    pub pips: Seq<int>,
    pub x_off: int,
    pub o_off: int,
}

/// Sum of the first `i` entries of a sequence.
pub open spec fn sum_prefix(s: Seq<int>, i: int) -> int
    decreases i
{
    if i <= 0 {
        0
    } else {
        sum_prefix(s, i - 1) + s[i - 1]
    }
}

/// Sum of a whole sequence.
pub open spec fn seq_sum(s: Seq<int>) -> int {
    sum_prefix(s, s.len() as int)
}

pub open spec fn all_nonneg(s: Seq<int>) -> bool {
    forall|j: int| 0 <= j < s.len() ==> s[j] >= 0
}

pub proof fn lemma_sum_prefix_congruence(s1: Seq<int>, s2: Seq<int>, i: int)
    requires
        forall|j: int| 0 <= j < i ==> s1[j] == s2[j],
    ensures
        sum_prefix(s1, i) == sum_prefix(s2, i),
    decreases i
{
    if i > 0 {
        lemma_sum_prefix_congruence(s1, s2, i - 1);
    }
}

pub proof fn lemma_sum_prefix_update(s: Seq<int>, j: int, v: int, i: int)
    requires
        0 <= j < s.len(),
        i <= s.len(),
    ensures
        sum_prefix(s.update(j, v), i) == sum_prefix(s, i) + (if j < i {
            v - s[j]
        } else {
            0
        }),
    decreases i
{
    if i > 0 {
        lemma_sum_prefix_update(s, j, v, i - 1);
    }
}

pub proof fn lemma_sum_prefix_nonneg(s: Seq<int>, i: int)
    requires
        forall|j: int| 0 <= j < i ==> s[j] >= 0,
    ensures
        sum_prefix(s, i) >= 0,
    decreases i
{
    if i > 0 {
        lemma_sum_prefix_nonneg(s, i - 1);
    }
}

/// In a nonnegative prefix, every entry is at most the prefix sum.
pub proof fn lemma_element_le_sum_prefix(s: Seq<int>, j: int, i: int)
    requires
        0 <= j < i,
        forall|t: int| 0 <= t < i ==> s[t] >= 0,
    ensures
        s[j] <= sum_prefix(s, i),
    decreases i
{
    if j == i - 1 {
        lemma_sum_prefix_nonneg(s, i - 1);
    } else {
        lemma_element_le_sum_prefix(s, j, i - 1);
    }
}

/// The mover's checker counts over the 26 bins in ranking order:
/// borne-off first, then points 1..24, then the mover's bar.
pub open spec fn xcounts(v: PosV) -> Seq<int> {
    Seq::new(26, |j: int| if j == 0 {
        v.x_off
    } else if v.pips[j] > 0 {
        v.pips[j]
    } else {
        0
    })
}

/// The opponent's checker counts over the 26 bins in ranking order:
/// borne-off first, then points 1..24, then the opponent's bar (pip 0).
pub open spec fn ocounts(v: PosV) -> Seq<int> {
    Seq::new(26, |j: int| if j == 0 {
        v.o_off
    } else {
        let p = if j <= 24 {
            v.pips[j]
        } else {
            v.pips[0]
        };
        if p < 0 {
            -p
        } else {
            0
        }
    })
}

/// Board-only mover counts (off bin zeroed); what a constructor can sum
/// before it knows the off count.
pub open spec fn board_xcounts(pips: Seq<int>) -> Seq<int> {
    Seq::new(26, |j: int| if j == 0 {
        0
    } else if pips[j] > 0 {
        pips[j]
    } else {
        0
    })
}

pub open spec fn board_ocounts(pips: Seq<int>) -> Seq<int> {
    Seq::new(26, |j: int| if j == 0 {
        0
    } else {
        let p = if j <= 24 {
            pips[j]
        } else {
            pips[0]
        };
        if p < 0 {
            -p
        } else {
            0
        }
    })
}

/// Checker conservation: each side has exactly `checkers` checkers split
/// between the board, its bar, and its borne-off tray.
pub open spec fn wf_v(v: PosV) -> bool {
    &&& v.pips.len() == 26
    &&& 1 <= v.checkers <= 15
    &&& v.pips[0] <= 0
    &&& v.pips[25] >= 0
    &&& v.x_off >= 0
    &&& v.o_off >= 0
    &&& seq_sum(xcounts(v)) == v.checkers
    &&& seq_sum(ocounts(v)) == v.checkers
}

/// Well-formedness pins every occupancy within the checker count.
pub proof fn lemma_wf_pip_bounds(v: PosV)
    requires
        wf_v(v),
    ensures
        forall|j: int| 0 <= j < 26 ==> -v.checkers <= #[trigger] v.pips[j] <= v.checkers,
        v.x_off <= v.checkers,
        v.o_off <= v.checkers,
{
    assert forall|j: int| 0 <= j < 26 implies -v.checkers <= #[trigger] v.pips[j] <= v.checkers by {
        lemma_element_le_sum_prefix(xcounts(v), j, 26);
        lemma_element_le_sum_prefix(ocounts(v), j, 26);
        if j == 0 {
            lemma_element_le_sum_prefix(ocounts(v), 25, 26);
        }
    }
    lemma_element_le_sum_prefix(xcounts(v), 0, 26);
    lemma_element_le_sum_prefix(ocounts(v), 0, 26);
}

/// One position of a fixed-checker-count variant, from the mover's view.
pub struct Position {
    /// Checkers per side in this variant.
    pub checkers: u8,
    /// 26 signed occupancies; see the module doc for the layout.
    pub pips: Vec<i8>,
    /// The mover's borne-off checkers.
    pub x_off: u8,
    /// The opponent's borne-off checkers.
    pub o_off: u8,
}

impl View for Position {
    type V = PosV;

    open spec fn view(&self) -> PosV {
        PosV {
            checkers: self.checkers as int,
            pips: self.pips@.map_values(|p: i8| p as int),
            x_off: self.x_off as int,
            o_off: self.o_off as int,
        }
    }
}

impl Clone for Position {
    fn clone(&self) -> (r: Self)
        ensures
            r@ == self@,
    {
        let r = Position {
            checkers: self.checkers,
            pips: self.pips.clone(),
            x_off: self.x_off,
            o_off: self.o_off,
        };
        proof {
            assert(r@.pips =~= self@.pips);
            assert(r@ =~= self@);
        }
        r
    }
}

impl Position {
    pub open spec fn wf(&self) -> bool {
        wf_v(self@)
    }

    /// Field-by-field equality, the equality the round-trip law speaks of.
    pub fn same_as(&self, other: &Position) -> (r: bool)
        ensures
            r <==> self@ == other@,
    {
        if self.checkers != other.checkers || self.x_off != other.x_off
            || self.o_off != other.o_off || self.pips.len() != other.pips.len() {
            proof {
                assert(self@.pips.len() == self.pips@.len());
                assert(other@.pips.len() == other.pips@.len());
            }
            return false;
        }
        let mut j: usize = 0;
        while j < self.pips.len()
            invariant
                j <= self.pips@.len(),
                self.pips@.len() == other.pips@.len(),
                forall|t: int| 0 <= t < j ==> self.pips@[t] == other.pips@[t],
            decreases self.pips@.len() - j
        {
            if self.pips[j] != other.pips[j] {
                proof {
                    assert(self@.pips[j as int] == self.pips@[j as int] as int);
                    assert(other@.pips[j as int] == other.pips@[j as int] as int);
                }
                return false;
            }
            j = j + 1;
        }
        proof {
            assert(self@.pips =~= other@.pips);
            assert(self@ =~= other@);
        }
        true
    }
}

/// The six zero-sum outcomes, from the perspective of the side to move at
/// the finished position.
#[derive(Clone, Copy, PartialEq, Eq, Structural, Debug)]
pub enum GameResult {
    WinNormal,
    WinGammon,
    WinBackgammon,
    LoseNormal,
    LoseGammon,
    LoseBackgammon,
}

/// The fixed signed value of each outcome, in plain (unscaled) points.
pub open spec fn result_value(r: GameResult) -> int {
    match r {
        GameResult::WinNormal => 1,
        GameResult::WinGammon => 2,
        GameResult::WinBackgammon => 3,
        GameResult::LoseNormal => -1,
        GameResult::LoseGammon => -2,
        GameResult::LoseBackgammon => -3,
    }
}

pub open spec fn result_reverse(r: GameResult) -> GameResult {
    match r {
        GameResult::WinNormal => GameResult::LoseNormal,
        GameResult::WinGammon => GameResult::LoseGammon,
        GameResult::WinBackgammon => GameResult::LoseBackgammon,
        GameResult::LoseNormal => GameResult::WinNormal,
        GameResult::LoseGammon => GameResult::WinGammon,
        GameResult::LoseBackgammon => GameResult::WinBackgammon,
    }
}

impl GameResult {
    /// Signed outcome value in plain points.
    pub fn value(&self) -> (r: i8)
        ensures
            r as int == result_value(*self),
    {
        match self {
            GameResult::WinNormal => 1,
            GameResult::WinGammon => 2,
            GameResult::WinBackgammon => 3,
            GameResult::LoseNormal => -1,
            GameResult::LoseGammon => -2,
            GameResult::LoseBackgammon => -3,
        }
    }

    /// The same outcome seen from the other side: win and loss swap while
    /// the gammon class is preserved.
    pub fn reverse(&self) -> (r: GameResult)
        ensures
            r == result_reverse(*self),
    {
        match self {
            GameResult::WinNormal => GameResult::LoseNormal,
            GameResult::WinGammon => GameResult::LoseGammon,
            GameResult::WinBackgammon => GameResult::LoseBackgammon,
            GameResult::LoseNormal => GameResult::WinNormal,
            GameResult::LoseGammon => GameResult::WinGammon,
            GameResult::LoseBackgammon => GameResult::WinBackgammon,
        }
    }
}

/// Reversing an outcome twice gives the outcome back, and reversal negates
/// the outcome's value.
pub proof fn lemma_reverse_involution(r: GameResult)
    ensures
        result_reverse(result_reverse(r)) == r,
        result_value(result_reverse(r)) == -result_value(r),
{
}

#[derive(Clone, Copy, PartialEq, Eq, Structural, Debug)]
pub enum GameState {
    Ongoing,
    GameOver(GameResult),
}

/// Game-over classification, mirroring the game-rules collaborator: a side
/// wins when all its checkers are off; the win is a gammon when the loser
/// has borne off nothing, and a backgammon when in addition the loser still
/// has a checker on the bar or in the winner's home board.
pub open spec fn state_spec(v: PosV) -> GameState {
    if v.x_off == v.checkers {
        GameState::GameOver(
            if v.o_off > 0 {
                GameResult::WinNormal
            } else if exists|j: int| 0 <= j < 7 && v.pips[j] < 0 {
                GameResult::WinBackgammon
            } else {
                GameResult::WinGammon
            },
        )
    } else if v.o_off == v.checkers {
        GameState::GameOver(
            if v.x_off > 0 {
                GameResult::LoseNormal
            } else if exists|j: int| 19 <= j < 26 && v.pips[j] > 0 {
                GameResult::LoseBackgammon
            } else {
                GameResult::LoseGammon
            },
        )
    } else {
        GameState::Ongoing
    }
}

/// Classifies a position as ongoing or finished with its outcome.
pub fn game_state(pos: &Position) -> (r: GameState)
    requires
        pos.wf(),
    ensures
        r == state_spec(pos@),
{
    if pos.x_off == pos.checkers {
        if pos.o_off > 0 {
            GameState::GameOver(GameResult::WinNormal)
        } else {
            let mut j: usize = 0;
            let mut hit: bool = false;
            while j < 7
                invariant
                    j <= 7,
                    pos.wf(),
                    hit <==> exists|t: int| 0 <= t < j && pos@.pips[t] < 0,
                decreases 7 - j
            {
                proof {
                    assert(pos@.pips[j as int] == pos.pips@[j as int] as int);
                }
                if pos.pips[j] < 0 {
                    hit = true;
                    proof {
                        assert(pos@.pips[j as int] < 0);
                    }
                }
                j = j + 1;
            }
            if hit {
                GameState::GameOver(GameResult::WinBackgammon)
            } else {
                GameState::GameOver(GameResult::WinGammon)
            }
        }
    } else if pos.o_off == pos.checkers {
        if pos.x_off > 0 {
            GameState::GameOver(GameResult::LoseNormal)
        } else {
            let mut j: usize = 19;
            let mut hit: bool = false;
            while j < 26
                invariant
                    19 <= j <= 26,
                    pos.wf(),
                    hit <==> exists|t: int| 19 <= t < j && pos@.pips[t] > 0,
                decreases 26 - j
            {
                proof {
                    assert(pos@.pips[j as int] == pos.pips@[j as int] as int);
                }
                if pos.pips[j] > 0 {
                    hit = true;
                    proof {
                        assert(pos@.pips[j as int] > 0);
                    }
                }
                j = j + 1;
            }
            if hit {
                GameState::GameOver(GameResult::LoseBackgammon)
            } else {
                GameState::GameOver(GameResult::LoseGammon)
            }
        }
    } else {
        GameState::Ongoing
    }
}

/// What `position_from_pips` accepts: 26 occupancies whose per-side totals
/// do not exceed the variant's checker count, with correctly signed bars.
pub open spec fn valid_pips(n: int, pips: Seq<int>) -> bool {
    &&& pips.len() == 26
    &&& 1 <= n <= 15
    &&& pips[0] <= 0
    &&& pips[25] >= 0
    &&& forall|j: int| 0 <= j < 26 ==> -15 <= #[trigger] pips[j] <= 15
    &&& seq_sum(board_xcounts(pips)) <= n
    &&& seq_sum(board_ocounts(pips)) <= n
}

/// The position a valid occupancy array denotes: off counts are whatever
/// conservation leaves over.
pub open spec fn pos_of_pips(n: int, pips: Seq<int>) -> PosV {
    PosV {
        checkers: n,
        pips: pips,
        x_off: n - seq_sum(board_xcounts(pips)),
        o_off: n - seq_sum(board_ocounts(pips)),
    }
}

pub proof fn lemma_pos_of_pips_wf(n: int, pips: Seq<int>)
    requires
        valid_pips(n, pips),
    ensures
        wf_v(pos_of_pips(n, pips)),
{
    let v = pos_of_pips(n, pips);
    assert(xcounts(v) =~= board_xcounts(pips).update(0, v.x_off));
    assert(ocounts(v) =~= board_ocounts(pips).update(0, v.o_off));
    lemma_sum_prefix_update(board_xcounts(pips), 0, v.x_off, 26);
    lemma_sum_prefix_update(board_ocounts(pips), 0, v.o_off, 26);
}

/// Computes both sides' on-board checker totals (bars included).
fn board_sums(pips: &Vec<i8>) -> (r: (u16, u16))
    requires
        pips@.len() == 26,
        forall|j: int| 0 <= j < 26 ==> -15 <= #[trigger] pips@[j] <= 15,
    ensures
        r.0 as int == seq_sum(board_xcounts(pips@.map_values(|p: i8| p as int))),
        r.1 as int == seq_sum(board_ocounts(pips@.map_values(|p: i8| p as int))),
{
    let ghost gpips = pips@.map_values(|p: i8| p as int);
    let mut xs: u16 = 0;
    let mut os: u16 = 0;
    proof {
        assert(sum_prefix(board_xcounts(gpips), 0) == 0);
        assert(sum_prefix(board_ocounts_butbar(gpips), 0) == 0);
        assert(board_xcounts(gpips)[0] == 0);
        assert(board_ocounts_butbar(gpips)[0] == 0);
    }
    let mut j: usize = 1;
    while j < 26
        invariant
            1 <= j <= 26,
            pips@.len() == 26,
            forall|t: int| 0 <= t < 26 ==> -15 <= #[trigger] pips@[t] <= 15,
            gpips == pips@.map_values(|p: i8| p as int),
            xs as int == sum_prefix(board_xcounts(gpips), j as int),
            os as int == sum_prefix(board_ocounts_butbar(gpips), j as int),
            xs <= 15 * j,
            os <= 15 * j,
        decreases 26 - j
    {
        let p = pips[j];
        proof {
            assert(gpips[j as int] == p as int);
            assert(board_xcounts(gpips)[j as int] == (if p as int > 0 {
                p as int
            } else {
                0
            }));
            assert(board_ocounts_butbar(gpips)[j as int] == (if (j <= 24) && ((p as int) < 0) {
                -(p as int)
            } else {
                0
            }));
        }
        if p > 0 {
            xs = xs + (p as u16);
        } else if j <= 24 && p < 0 {
            os = os + ((-p) as u16);
        }
        j = j + 1;
    }
    let ob = pips[0];
    proof {
        assert(gpips[0] == ob as int);
        lemma_sum_prefix_congruence(board_ocounts_butbar(gpips), board_ocounts(gpips), 25);
        assert(board_ocounts_butbar(gpips)[25] == 0);
        assert(board_ocounts(gpips)[25] == (if (ob as int) < 0 {
            -(ob as int)
        } else {
            0
        }));
        assert(seq_sum(board_ocounts(gpips)) == sum_prefix(board_ocounts(gpips), 26));
        assert(seq_sum(board_xcounts(gpips)) == sum_prefix(board_xcounts(gpips), 26));
    }
    if ob < 0 {
        os = os + ((-ob) as u16);
    }
    (xs, os)
}

/// `board_ocounts` with the opponent's bar contribution removed, matching
/// the loop above that adds the bar term last.
pub open spec fn board_ocounts_butbar(pips: Seq<int>) -> Seq<int> {
    Seq::new(26, |j: int| if 1 <= j <= 24 && pips[j] < 0 {
        -pips[j]
    } else {
        0
    })
}

/// Validated constructor: turns 26 signed occupancies into a well-formed
/// position of an `n`-checker variant, deriving the borne-off counts from
/// conservation.  Returns `None` exactly when the occupancies are not a
/// board of such a variant.
pub fn position_from_pips(n: u8, pips: Vec<i8>) -> (r: Option<Position>)
    ensures
        match r {
            Some(p) => {
                &&& valid_pips(n as int, pips@.map_values(|q: i8| q as int))
                &&& p@ == pos_of_pips(n as int, pips@.map_values(|q: i8| q as int))
                &&& p.wf()
            },
            None => !valid_pips(n as int, pips@.map_values(|q: i8| q as int)),
        },
{
    let ghost gpips = pips@.map_values(|q: i8| q as int);
    if n < 1 || n > 15 || pips.len() != 26 {
        return None;
    }
    if pips[0] > 0 || pips[25] < 0 {
        return None;
    }
    let mut j: usize = 0;
    while j < 26
        invariant
            j <= 26,
            pips@.len() == 26,
            gpips == pips@.map_values(|q: i8| q as int),
            forall|t: int| 0 <= t < j ==> -15 <= #[trigger] pips@[t] <= 15,
        decreases 26 - j
    {
        if pips[j] < -15 || pips[j] > 15 {
            proof {
                assert(gpips[j as int] == pips@[j as int] as int);
                assert(!(-15 <= gpips[j as int] <= 15));
            }
            return None;
        }
        j = j + 1;
    }
    proof {
        assert forall|t: int| 0 <= t < 26 implies -15 <= #[trigger] gpips[t] <= 15 by {
            assert(gpips[t] == pips@[t] as int);
        }
    }
    let (xs, os) = board_sums(&pips);
    if xs > n as u16 || os > n as u16 {
        return None;
    }
    let p = Position {
        checkers: n,
        pips,
        x_off: n - (xs as u8),
        o_off: n - (os as u8),
    };
    proof {
        lemma_sum_prefix_nonneg(board_xcounts(gpips), 26);
        lemma_sum_prefix_nonneg(board_ocounts(gpips), 26);
        lemma_pos_of_pips_wf(n as int, gpips);
        assert(p@ =~= pos_of_pips(n as int, gpips));
    }
    Some(p)
}

/// The hypergammon-family starting position for `n` checkers per side
/// (1 through 5): the mover's checkers on the last `n` points, the
/// opponent's on the first `n`.
pub open spec fn hyper_start_v(n: int) -> PosV {
    PosV {
        checkers: n,
        pips: Seq::new(26, |j: int| if 1 <= j <= n {
            -1
        } else if 25 - n <= j <= 24 {
            1
        } else {
            0
        }),
        x_off: 0,
        o_off: 0,
    }
}

/// Prefix sums of a bin-count sequence that is the indicator of an index
/// interval: the sum counts the covered indices.
proof fn lemma_indicator_sum(s: Seq<int>, a: int, b: int, i: int)
    requires
        0 <= a <= b + 1,
        0 <= i <= s.len(),
        forall|j: int| 0 <= j < i ==> #[trigger] s[j] == (if a <= j <= b {
            1int
        } else {
            0int
        }),
    ensures
        sum_prefix(s, i) == (if i <= a {
            0int
        } else if i <= b + 1 {
            i - a
        } else {
            b + 1 - a
        }),
    decreases i
{
    if i > 0 {
        lemma_indicator_sum(s, a, b, i - 1);
    }
}

/// The starting position is a well-formed board of its variant.
pub proof fn lemma_hyper_start_wf(n: int)
    requires
        1 <= n <= 5,
    ensures
        wf_v(hyper_start_v(n)),
        valid_pips(n, hyper_start_v(n).pips),
        pos_of_pips(n, hyper_start_v(n).pips) == hyper_start_v(n),
{
    let v = hyper_start_v(n);
    let bx = board_xcounts(v.pips);
    let bo = board_ocounts(v.pips);
    assert forall|j: int| 0 <= j < 26 implies #[trigger] bx[j] == (if 25 - n <= j <= 24 {
        1int
    } else {
        0int
    }) by {}
    assert forall|j: int| 0 <= j < 26 implies #[trigger] bo[j] == (if 1 <= j <= n {
        1int
    } else {
        0int
    }) by {}
    lemma_indicator_sum(bx, 25 - n, 24, 26);
    lemma_indicator_sum(bo, 1, n, 26);
    assert(seq_sum(bx) == n);
    assert(seq_sum(bo) == n);
    lemma_pos_of_pips_wf(n, v.pips);
    assert(pos_of_pips(n, v.pips) =~= v);
}

/// Builds the hypergammon-family starting position.
pub fn hyper_start(n: u8) -> (r: Position)
    requires
        1 <= n <= 5,
    ensures
        r@ == hyper_start_v(n as int),
        r.wf(),
{
    let mut pips: Vec<i8> = Vec::new();
    let mut j: usize = 0;
    while j < 26
        invariant
            j <= 26,
            1 <= n <= 5,
            pips@.len() == j,
            forall|t: int| 0 <= t < j ==> #[trigger] pips@[t] as int == hyper_start_v(n as int).pips[t],
        decreases 26 - j
    {
        let v: i8 = if 1 <= j && j <= n as usize {
            -1
        } else if 25 - (n as usize) <= j && j <= 24 {
            1
        } else {
            0
        };
        pips.push(v);
        j = j + 1;
    }
    proof {
        assert(pips@.map_values(|q: i8| q as int) =~= hyper_start_v(n as int).pips);
        lemma_hyper_start_wf(n as int);
    }
    let r = position_from_pips(n, pips);
    proof {
        assert(r is Some);
        assert(r.unwrap()@ =~= hyper_start_v(n as int));
    }
    match r {
        Some(p) => p,
        None => vstd::pervasive::unreached(),
    }
}

} // verus!
