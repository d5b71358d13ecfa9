//! Fixed-width binary records for positions: one byte per bin, each
//! occupancy biased by +15 so the record is pure unsigned data.  Decoding
//! validates the record and rebuilds the borne-off counts from checker
//! conservation; encoding then decoding any well-formed position reproduces
//! it exactly.

use vstd::prelude::*;
use crate::position::{
    PosV, Position, wf_v, valid_pips, pos_of_pips, position_from_pips, seq_sum, board_xcounts,
    board_ocounts, xcounts, ocounts, lemma_wf_pip_bounds, lemma_sum_prefix_update,
};

verus! {

/// Record length in bytes: one per bin.
pub open spec fn record_len() -> int {
    26
}

/// The record of a position: each occupancy shifted into `0..=30`.
pub open spec fn record_spec(v: PosV) -> Seq<int> {
    Seq::new(26, |j: int| v.pips[j] + 15)
}

/// The occupancies a record denotes.
pub open spec fn debias(rec: Seq<int>) -> Seq<int> {
    Seq::new(26, |j: int| rec[j] - 15)
}

/// The position a record denotes for an `n`-checker variant, if any.
pub open spec fn decode_spec(rec: Seq<int>, n: int) -> Option<PosV> {
    if rec.len() == 26 && (forall|j: int| 0 <= j < 26 ==> 0 <= #[trigger] rec[j] <= 30)
        && valid_pips(n, debias(rec)) {
        Some(pos_of_pips(n, debias(rec)))
    } else {
        None
    }
}

/// A well-formed position is a valid occupancy array whose derived off
/// counts are its own.
pub proof fn lemma_wf_valid_pips(v: PosV)
    requires
        wf_v(v),
    ensures
        valid_pips(v.checkers, v.pips),
        pos_of_pips(v.checkers, v.pips) == v,
{
    lemma_wf_pip_bounds(v);
    assert(xcounts(v) =~= board_xcounts(v.pips).update(0, v.x_off));
    assert(ocounts(v) =~= board_ocounts(v.pips).update(0, v.o_off));
    lemma_sum_prefix_update(board_xcounts(v.pips), 0, v.x_off, 26);
    lemma_sum_prefix_update(board_ocounts(v.pips), 0, v.o_off, 26);
    assert(seq_sum(board_xcounts(v.pips)) == v.checkers - v.x_off);
    assert(seq_sum(board_ocounts(v.pips)) == v.checkers - v.o_off);
    assert(pos_of_pips(v.checkers, v.pips) =~= v);
}

/// Round trip: decoding the record of any well-formed position gives that
/// position back, off counts and all.
pub proof fn lemma_codec_roundtrip(v: PosV)
    requires
        wf_v(v),
    ensures
        decode_spec(record_spec(v), v.checkers) == Some(v),
{
    lemma_wf_pip_bounds(v);
    lemma_wf_valid_pips(v);
    assert(debias(record_spec(v)) =~= v.pips);
}

/// Encodes a position as its fixed-width record.
pub fn encode(pos: &Position) -> (r: Vec<u8>)
    requires
        pos.wf(),
    ensures
        r@.len() == 26,
        r@.map_values(|b: u8| b as int) =~= record_spec(pos@),
{
    proof {
        lemma_wf_pip_bounds(pos@);
    }
    let mut r: Vec<u8> = Vec::new();
    let mut j: usize = 0;
    while j < 26
        invariant
            j <= 26,
            pos.wf(),
            forall|t: int| 0 <= t < 26 ==> -15 <= #[trigger] pos@.pips[t] <= 15,
            r@.len() == j,
            forall|t: int| 0 <= t < j ==> #[trigger] r@[t] as int == record_spec(pos@)[t],
        decreases 26 - j
    {
        let p = pos.pips[j];
        proof {
            assert(pos@.pips[j as int] == pos.pips@[j as int] as int);
        }
        r.push(((p as i16) + 15) as u8);
        j = j + 1;
    }
    r
}

/// Decodes a fixed-width record back into a well-formed position of an
/// `n`-checker variant; returns `None` exactly when the record denotes no
/// such position.
pub fn decode(rec: &Vec<u8>, n: u8) -> (r: Option<Position>)
    ensures
        match r {
            Some(p) => {
                &&& p.wf()
                &&& decode_spec(rec@.map_values(|b: u8| b as int), n as int) == Some(p@)
            },
            None => decode_spec(rec@.map_values(|b: u8| b as int), n as int) is None,
        },
{
    let ghost grec = rec@.map_values(|b: u8| b as int);
    if rec.len() != 26 {
        return None;
    }
    let mut pips: Vec<i8> = Vec::new();
    let mut j: usize = 0;
    while j < 26
        invariant
            j <= 26,
            rec@.len() == 26,
            grec == rec@.map_values(|b: u8| b as int),
            pips@.len() == j,
            forall|t: int| 0 <= t < j ==> 0 <= #[trigger] grec[t] <= 30,
            forall|t: int| 0 <= t < j ==> #[trigger] pips@[t] as int == grec[t] - 15,
        decreases 26 - j
    {
        let b = rec[j];
        proof {
            assert(grec[j as int] == b as int);
        }
        if b > 30 {
            return None;
        }
        pips.push((b as i8) - 15);
        j = j + 1;
    }
    proof {
        assert(pips@.map_values(|q: i8| q as int) =~= debias(grec));
    }
    let r = position_from_pips(n, pips);
    proof {
        if r is Some {
            assert(decode_spec(grec, n as int) == Some(r.unwrap()@));
        } else {
            assert(decode_spec(grec, n as int) is None);
        }
    }
    r
}

} // verus!
