//! The trusted boundary to the game-rules collaborator: legal-move
//! generation is the single capability this library consumes without proof.
//! Everything downstream treats the successor list as an opaque function of
//! the position and the roll.

use vstd::prelude::*;
use bkgm::State;
use crate::position::{Position, PosV, wf_v, state_spec, GameState};

verus! {

/// The successor positions the game-rules crate returns for one position
/// and one roll.  A pure function of its arguments; its value (the legal
/// moves of backgammon) is named rather than stated.
pub uninterp spec fn successors_of(n: int, pos: PosV, d1: int, d2: int) -> Seq<PosV>;

/// Relies on bkgm's `legal_positions_with::<ClassicRules, N>`: returns the
/// positions reachable from `pos` by playing the roll `(d1, d2)`, each
/// flipped to its own side-to-move perspective.  The generator's moves shift
/// one checker at a time, count bear-offs into the off tray and send hit
/// checkers to the bar, so every successor satisfies checker conservation;
/// and when no move is legal the position itself, flipped, is returned, so
/// the list is never empty.
#[verifier::external_body]
fn bk_successors<const N: u8>(pos: &Position, d1: u8, d2: u8) -> (r: Vec<Position>)
    requires
        pos.wf(),
        pos.checkers == N,
        state_spec(pos@) is Ongoing,
        1 <= d1 <= 6,
        1 <= d2 <= 6,
    ensures
        r@.map_values(|p: Position| p@) == successors_of(N as int, pos@, d1 as int, d2 as int),
        r@.len() >= 1,
        forall|i: int|
            0 <= i < r@.len() ==> wf_v(#[trigger] r@[i]@) && r@[i]@.checkers == N as int,
{
    let mut arr = [0i8; 26];
    arr.copy_from_slice(pos.pips.as_slice());
    let bp = bkgm::Position::<N>::try_from(arr).unwrap();
    let dice = bkgm::Dice::new(d1 as usize, d2 as usize);
    bkgm::legal_positions_with::<bkgm::ClassicRules, N>(bp, &dice)
        .into_iter()
        .map(|c| Position {
            checkers: N,
            pips: <[i8; 26]>::from(c).to_vec(),
            x_off: c.x_off(),
            o_off: c.o_off(),
        })
        .collect()
}

/// Legal successors of an ongoing position for one roll, for the supported
/// one- to five-checker variants.
pub fn successors(pos: &Position, d1: u8, d2: u8) -> (r: Vec<Position>)
    requires
        pos.wf(),
        1 <= pos.checkers <= 5,
        state_spec(pos@) is Ongoing,
        1 <= d1 <= 6,
        1 <= d2 <= 6,
    ensures
        r@.map_values(|p: Position| p@) == successors_of(
            pos@.checkers,
            pos@,
            d1 as int,
            d2 as int,
        ),
        r@.len() >= 1,
        forall|i: int|
            0 <= i < r@.len() ==> wf_v(#[trigger] r@[i]@) && r@[i]@.checkers == pos@.checkers,
{
    match pos.checkers {
        1 => bk_successors::<1>(pos, d1, d2),
        2 => bk_successors::<2>(pos, d1, d2),
        3 => bk_successors::<3>(pos, d1, d2),
        4 => bk_successors::<4>(pos, d1, d2),
        _ => bk_successors::<5>(pos, d1, d2),
    }
}

} // verus!
